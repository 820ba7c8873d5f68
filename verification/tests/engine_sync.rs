use go_webui::color::Color;
use go_webui::engine::{
    apply_genmove_reply, boardsize_command, connect_plan, genmove_command, history_commands,
    kata_analyze_command, max_visits_command, move_command, parse_color, pass_command, play_command,
    read_genmove_reply, AnalysisSessions, ConnectPlan, EngineAssignment, EngineStep, GenmoveReply, is_nameable,
};
use go_webui::error::AppError;
use go_webui::game::{GameTree, MoveInfo};
use go_webui::profile::{ProfileKind, ServerProfile};

#[test]
fn commands_are_written_as_gtp_expects() {
    assert_eq!(play_command(Color::Black, 15, 3, 19), "play B Q16");
    assert_eq!(pass_command(Color::White), "play W pass");
    assert_eq!(genmove_command(Color::White), "genmove W");
    assert_eq!(boardsize_command(19), "boardsize 19");
    assert_eq!(kata_analyze_command(50), "kata-analyze 50 ownership true");
    assert_eq!(max_visits_command(16), "max_visits 16");
    let mv = MoveInfo { x: 0, y: 8, color: Color::Black, is_pass: false };
    assert_eq!(move_command(mv, 9), "play B A1");
}

#[test]
fn history_is_replayed_in_order() {
    let mut tree = GameTree::new(9);
    assert!(tree.confirm_move(2, 2));
    tree.pass_turn();
    let cmds = history_commands(&tree.move_history(), 9);
    assert_eq!(cmds, vec!["play B C7", "play W pass"]);
}

#[test]
fn genmove_replies_are_read() {
    assert_eq!(read_genmove_reply("= Q16\n", 19), GenmoveReply::Move(15, 3));
    assert_eq!(read_genmove_reply(" =  pass ", 19), GenmoveReply::Pass);
    assert_eq!(read_genmove_reply("= RESIGN", 19), GenmoveReply::Resign);
    assert_eq!(read_genmove_reply("? illegal move", 19), GenmoveReply::Unusable);
    assert_eq!(read_genmove_reply("= Z99", 19), GenmoveReply::Unusable);
    assert_eq!(read_genmove_reply("", 19), GenmoveReply::Unusable);
}

#[test]
fn genmove_replies_are_applied_to_the_game() {
    let mut tree = GameTree::new(9);
    assert_eq!(apply_genmove_reply(&mut tree, GenmoveReply::Move(4, 4)), EngineStep::Continue);
    assert_eq!(tree.snapshot().stones[4][4], Some(Color::Black));
    assert_eq!(apply_genmove_reply(&mut tree, GenmoveReply::Move(4, 4)), EngineStep::Stop);
    assert_eq!(apply_genmove_reply(&mut tree, GenmoveReply::Pass), EngineStep::Continue);
    assert!(tree.snapshot().last_move_is_pass);
    assert_eq!(apply_genmove_reply(&mut tree, GenmoveReply::Resign), EngineStep::Resigned(Color::Black));
    assert_eq!(apply_genmove_reply(&mut tree, GenmoveReply::Unusable), EngineStep::Stop);
}

#[test]
fn colours_are_parsed_by_name() {
    assert_eq!(parse_color("black").unwrap(), Color::Black);
    assert_eq!(parse_color("white").unwrap(), Color::White);
    match parse_color("red") {
        Err(AppError::InvalidInput(m)) => assert_eq!(m, "알 수 없는 색: red"),
        _ => panic!("expected InvalidInput"),
    }
    assert!(parse_color("Black").is_err());
}

#[test]
fn assignments_are_kept_per_colour_and_cleared_per_profile() {
    let mut a = EngineAssignment::default();
    assert_eq!(a.profile_for(Color::Black), None);
    a.assign(Color::Black, Some("p1".to_string()));
    a.assign(Color::White, Some("p1".to_string()));
    assert_eq!(a.profile_for(Color::White), Some("p1"));
    a.assign(Color::White, Some("p2".to_string()));
    a.clear_profile("p1");
    assert_eq!(a.profile_for(Color::Black), None);
    assert_eq!(a.profile_for(Color::White), Some("p2"));
}

#[test]
fn connecting_follows_the_profile() {
    let mut p = ServerProfile {
        id: "p".into(),
        name: "n".into(),
        kind: ProfileKind::Ssh,
        host: "h".into(),
        port: 22,
        username: "u".into(),
        private_key: "k".into(),
        has_passphrase: false,
        engine_command: "katago gtp".into(),
        host_key_fingerprint: None,
    };
    assert_eq!(connect_plan(true, None, "p").unwrap(), ConnectPlan::AlreadyConnected);
    assert!(matches!(connect_plan(false, None, "p"), Err(AppError::ProfileNotFound(_))));
    assert_eq!(connect_plan(false, Some(&p), "p").unwrap(), ConnectPlan::Ssh);
    p.kind = ProfileKind::Local;
    assert_eq!(connect_plan(false, Some(&p), "p").unwrap(), ConnectPlan::Local);
    p.has_passphrase = true;
    assert!(matches!(connect_plan(false, Some(&p), "p"), Err(AppError::PassphraseUnsupported)));
}

#[test]
fn nameable_moves() {
    assert!(is_nameable(&MoveInfo { x: 18, y: 18, color: Color::Black, is_pass: false }, 19));
    assert!(!is_nameable(&MoveInfo { x: 19, y: 0, color: Color::Black, is_pass: false }, 21));
    assert!(!is_nameable(&MoveInfo { x: 0, y: 9, color: Color::Black, is_pass: false }, 9));
    assert!(is_nameable(&MoveInfo { x: 40, y: 40, color: Color::White, is_pass: true }, 9));
}

#[test]
fn analysis_sessions_are_picked_started_and_stopped() {
    let mut a = AnalysisSessions::default();
    assert_eq!(a.pick(false, Some("b".into()), true, Some("c".into())), Some("b".to_string()));
    a.set_engine(Some("e".into()));
    assert_eq!(a.pick(true, Some("b".into()), true, Some("c".into())), Some("e".to_string()));
    assert_eq!(a.pick(false, Some("b".into()), false, Some("c".into())), Some("c".to_string()));
    a.start("b".into());
    assert_eq!(a.stop(), Some("b".to_string()));
    assert_eq!(a.stop(), None);
    a.clear_engine_for("x");
    assert_eq!(a.engine, Some("e".to_string()));
    a.clear_engine_for("e");
    assert_eq!(a.engine, None);
}
