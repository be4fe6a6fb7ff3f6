use neutral_grid::models::{OrderCommand, PosSide, Side, WsCommand};
use neutral_grid::session::{
    batch_message, batches, login_lost, login_step, session_step, subscribe_message, Frame,
    LoginStep, SessionEvent, SessionStep,
};
use neutral_grid::state::WsState;

fn text(t: &str) -> Frame {
    Frame::Text(t.to_string())
}

#[test]
fn the_login_is_awaited() {
    assert_eq!(login_step(&text(r#"{"event":"login","code":"0"}"#)), LoginStep::Done);
    assert_eq!(login_step(&text(r#"{"event":"login","code":"60009"}"#)), LoginStep::Wait);
    assert_eq!(login_step(&text(r#"{"event":"login","code":0}"#)), LoginStep::Wait);
    assert_eq!(login_step(&text(r#"{"event":"error","code":"0"}"#)), LoginStep::Wait);
    assert_eq!(login_step(&text("pong")), LoginStep::Wait);
    assert_eq!(login_step(&Frame::Other), LoginStep::Wait);
    assert_eq!(login_step(&Frame::Closed), LoginStep::Lost);
    assert_eq!(login_lost(), "WS disconnected during login");
}

#[test]
fn channels_are_subscribed_to() {
    assert_eq!(
        subscribe_message("ETH-USDT-SWAP"),
        r#"{"args":[{"channel":"orders","instId":"ETH-USDT-SWAP","instType":"SWAP"},{"channel":"positions","instId":"ETH-USDT-SWAP","instType":"SWAP"},{"channel":"tickers","instId":"ETH-USDT-SWAP"}],"op":"subscribe"}"#
    );
}

#[test]
fn orders_are_placed() {
    let command = WsCommand::Place(vec![OrderCommand {
        cl_ord_id: "NGBLBM1R0".to_string(),
        pos_side: PosSide::Long,
        side: Side::Buy,
        price: "95.00".to_string(),
        size: "2".to_string(),
    }]);
    let mut parts = batches(&command, "S");
    assert_eq!(parts.len(), 1);
    assert_eq!(
        batch_message(&command, parts.remove(0), "123"),
        r#"{"args":[{"clOrdId":"NGBLBM1R0","instId":"S","ordType":"post_only","posSide":"long","px":"95.00","side":"buy","sz":"2","tdMode":"cross"}],"id":"123","op":"batch-orders"}"#
    );
}

#[test]
fn orders_are_cancelled() {
    let command = WsCommand::Cancel(vec!["NGBa".to_string(), "NGBb".to_string()]);
    let mut parts = batches(&command, "S");
    assert_eq!(
        batch_message(&command, parts.remove(0), "9"),
        r#"{"args":[{"clOrdId":"NGBa","instId":"S"},{"clOrdId":"NGBb","instId":"S"}],"id":"9","op":"cancel-batch-orders"}"#
    );
}

#[test]
fn batches_carry_everything() {
    for (count, sizes) in
        [(0, vec![]), (1, vec![1]), (20, vec![20]), (21, vec![20, 1]), (45, vec![20, 20, 5])]
    {
        let ids: Vec<String> = (0..count).map(|i| format!("NGB{}", i)).collect();
        let parts = batches(&WsCommand::Cancel(ids.clone()), "S");
        let got: Vec<usize> = parts.iter().map(|p| p.len()).collect();
        assert_eq!(got, sizes);
        let sent: Vec<String> =
            parts.iter().flatten().map(|j| j.text_at("clOrdId").unwrap().to_string()).collect();
        assert_eq!(sent, ids);
    }
}

#[test]
fn the_session_follows_events() {
    let mut st = WsState::default();
    match session_step(&mut st, "S", SessionEvent::PingDue) {
        SessionStep::Send(t) => assert_eq!(t, "ping"),
        _ => panic!("a sign of life is due"),
    }
    let quit = SessionEvent::Command(None);
    assert!(matches!(session_step(&mut st, "S", quit), SessionStep::Stop));
    let command = SessionEvent::Command(Some(WsCommand::Cancel(vec!["NGBa".to_string()])));
    match session_step(&mut st, "S", command) {
        SessionStep::SendBatches(WsCommand::Cancel(ids), parts) => {
            assert_eq!(ids, vec!["NGBa"]);
            assert_eq!(parts.len(), 1);
        }
        _ => panic!("something is asked for"),
    }
    let news = r#"{"arg":{"channel":"positions"},"data":[{"posSide":"long","pos":"1"}]}"#;
    let step = session_step(&mut st, "S", SessionEvent::Arrived(text(news)));
    assert!(matches!(step, SessionStep::Notify));
    let step = session_step(&mut st, "S", SessionEvent::Arrived(text(news)));
    assert!(matches!(step, SessionStep::Continue));
    let step = session_step(&mut st, "S", SessionEvent::Arrived(Frame::Other));
    assert!(matches!(step, SessionStep::Continue));
    let step = session_step(&mut st, "S", SessionEvent::Arrived(Frame::Closed));
    assert!(matches!(step, SessionStep::Stop));
    assert_eq!(st.pos_long, 10_000_000_000);
}
