pub mod game_connection;
