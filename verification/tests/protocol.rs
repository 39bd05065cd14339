use grid_game::client::{apply_init_map, apply_update_map, next_action, ClientAction, MessageType};
use grid_game::webserver::{
    encode_init_map, encode_update, final_message, next_server_step, MessageType as ServerMessageType, ServerStep,
};

#[test]
fn server_message_codes() {
    assert_eq!(ServerMessageType::Init.to_bytes(), [0]);
    assert_eq!(ServerMessageType::Update.to_bytes(), [1]);
    assert_eq!(ServerMessageType::Win.to_bytes(), [2]);
    assert_eq!(ServerMessageType::Lose.to_bytes(), [3]);
}

#[test]
fn client_reads_message_kinds() {
    assert_eq!(MessageType::from_byte(0), MessageType::Init);
    assert_eq!(MessageType::from_byte(1), MessageType::Update);
    assert_eq!(MessageType::from_byte(2), MessageType::Win);
    assert_eq!(MessageType::from_byte(3), MessageType::Lose);
    assert_eq!(MessageType::from_byte(4), MessageType::Init);
    assert_eq!(MessageType::from_byte(255), MessageType::Init);
}

#[test]
fn message_kind_roundtrip() {
    let pairs = [
        (ServerMessageType::Init, MessageType::Init),
        (ServerMessageType::Update, MessageType::Update),
        (ServerMessageType::Win, MessageType::Win),
        (ServerMessageType::Lose, MessageType::Lose),
    ];
    for (server, client) in pairs {
        assert_eq!(MessageType::from_byte(server.to_bytes()[0]), client);
    }
}

#[test]
fn client_actions() {
    assert_eq!(next_action(MessageType::Init), ClientAction::ReadInitMap);
    assert_eq!(next_action(MessageType::Update), ClientAction::ReadUpdate);
    assert_eq!(next_action(MessageType::Win), ClientAction::Finish);
    assert_eq!(next_action(MessageType::Lose), ClientAction::Finish);
}

#[test]
fn final_messages() {
    assert_eq!(final_message(2, 2), ServerMessageType::Win);
    assert_eq!(final_message(1, 2), ServerMessageType::Lose);
    assert_eq!(final_message(1, -1), ServerMessageType::Lose);
}

#[test]
fn init_map_encodes_each_players_view() {
    let m = vec![vec![0u8, 1, 2], vec![2u8, 0, 3], vec![9u8, 9, 9]];
    assert_eq!(encode_init_map(&m, 3, 2, 1), vec![0, 1, 2, 2, 0, 2]);
    assert_eq!(encode_init_map(&m, 3, 2, 2), vec![0, 2, 1, 1, 0, 2]);
    assert_eq!(encode_init_map(&m, 2, 2, 3), vec![0, 2, 2, 0]);
    // the player number is taken modulo 256; player 0 sees empty cells as its own
    assert_eq!(encode_init_map(&m, 3, 1, 256), vec![1, 2, 2]);
    assert_eq!(encode_init_map(&m, 0, 3, 1), Vec::<u8>::new());
}

#[test]
fn update_encodes_last_moves() {
    let changes = vec![(9u8, 9u8, 0u8), (1u8, 2u8, 0u8), (3u8, 4u8, 1u8)];
    let buf = encode_update(&changes, 2, 0);
    assert_eq!(buf.len(), 128);
    assert_eq!(&buf[..7], &[7, 1, 2, 1, 3, 4, 2]);
    assert!(buf[7..].iter().all(|b| *b == 0));
    let buf = encode_update(&changes, 2, 1);
    assert_eq!(&buf[..7], &[7, 1, 2, 2, 3, 4, 1]);
    let buf = encode_update(&changes, 0, 1);
    assert_eq!(buf[0], 1);
    assert!(buf[1..].iter().all(|b| *b == 0));
}

#[test]
fn init_map_is_loaded_into_the_corner() {
    let mut bytes = vec![0u8; 2048];
    bytes[0] = 1;
    bytes[65] = 2;
    bytes[2047] = 1;
    let mut matrix = vec![vec![7u8; 70]; 33];
    apply_init_map(&mut matrix, &bytes);
    assert_eq!(matrix[0][0], 1);
    assert_eq!(matrix[1][1], 2);
    assert_eq!(matrix[31][63], 1);
    assert_eq!(matrix[5][5], 0);
    assert_eq!(matrix[0][64], 7);
    assert_eq!(matrix[32][0], 7);
}

#[test]
fn updates_are_applied_in_order() {
    let mut matrix = vec![vec![0u8; 4]; 3];
    let mut buf = vec![0u8; 128];
    buf[0] = 3;
    buf[1..10].copy_from_slice(&[1, 2, 1, 3, 0, 2, 1, 2, 2]);
    apply_update_map(&mut matrix, &buf);
    assert_eq!(matrix, vec![vec![0, 0, 0, 2], vec![0, 0, 0, 0], vec![0, 2, 0, 0]]);
    matrix[0][3] = 5;
    let mut buf = vec![0u8; 4];
    buf[0] = 1;
    buf[1..4].copy_from_slice(&[3, 0, 6]);
    apply_update_map(&mut matrix, &buf);
    assert_eq!(matrix[0][3], 6);
}

#[test]
fn server_init_map_reaches_client() {
    let mut server = vec![vec![0u8; 64]; 32];
    server[3][4] = 1;
    server[10][63] = 2;
    server[31][0] = 1;
    let bytes = encode_init_map(&server, 64, 32, 2);
    let mut client = vec![vec![9u8; 64]; 32];
    apply_init_map(&mut client, &bytes);
    assert_eq!(client[3][4], 2);
    assert_eq!(client[10][63], 1);
    assert_eq!(client[31][0], 2);
    assert_eq!(client[0][0], 0);
}

#[test]
fn server_update_reaches_client_and_clears_corner() {
    let changes = vec![(4u8, 5u8, 0u8), (6u8, 7u8, 1u8), (4u8, 5u8, 1u8)];
    let bytes = encode_update(&changes, 3, 0);
    let mut client = vec![vec![0u8; 64]; 32];
    client[0][0] = 2;
    client[1][1] = 2;
    apply_update_map(&mut client, &bytes);
    assert_eq!(client[5][4], 2);
    assert_eq!(client[7][6], 2);
    assert_eq!(client[1][1], 2);
    assert_eq!(client[0][0], 0);
}

#[test]
fn server_steps() {
    assert_eq!(next_server_step(0, -1), ServerStep::SendInit);
    assert_eq!(next_server_step(1, -1), ServerStep::SendUpdate);
    assert_eq!(next_server_step(7, -1), ServerStep::SendUpdate);
    assert_eq!(next_server_step(0, 1), ServerStep::Finish);
    assert_eq!(next_server_step(3, 2), ServerStep::Finish);
}
