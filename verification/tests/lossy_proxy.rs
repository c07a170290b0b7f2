use entrouter_line::lossy_proxy::{LossyProxy, ProxyAction};

const LISTEN: u16 = 9000;
const TARGET: u16 = 8001;
const SENDER: u16 = 7000;

#[test]
fn forwards_sender_traffic_to_target() {
    let mut p = LossyProxy::new(LISTEN, TARGET, false);
    assert_eq!(p.on_datagram(SENDER, false, false), ProxyAction::Forward(TARGET));
    assert_eq!(p.total(), 1);
    assert_eq!(p.dropped(), 0);
}

#[test]
fn loss_draw_drops_sender_traffic() {
    let mut p = LossyProxy::new(LISTEN, TARGET, false);
    assert_eq!(p.on_datagram(SENDER, false, true), ProxyAction::Drop);
    assert_eq!(p.on_datagram(SENDER, false, false), ProxyAction::Forward(TARGET));
    assert_eq!(p.total(), 2);
    assert_eq!(p.dropped(), 1);
}

#[test]
fn return_traffic_goes_back_without_loss() {
    let mut p = LossyProxy::new(LISTEN, TARGET, false);
    // Nothing known about the sender yet.
    assert_eq!(p.on_datagram(TARGET, true, true), ProxyAction::Discard);
    // A dropped datagram still reveals its sender.
    assert_eq!(p.on_datagram(SENDER, false, true), ProxyAction::Drop);
    assert_eq!(p.on_datagram(TARGET, true, true), ProxyAction::Forward(SENDER));
    assert_eq!(p.total(), 3);
    assert_eq!(p.dropped(), 1);
}

#[test]
fn bidirectional_return_traffic_runs_through_the_loss_draw() {
    let mut p = LossyProxy::new(LISTEN, TARGET, true);
    // No sender known: return traffic goes to the proxy's own address.
    assert_eq!(p.on_datagram(TARGET, true, false), ProxyAction::Forward(LISTEN));
    assert_eq!(p.on_datagram(SENDER, false, false), ProxyAction::Forward(TARGET));
    assert_eq!(p.on_datagram(TARGET, true, false), ProxyAction::Forward(SENDER));
    assert_eq!(p.on_datagram(TARGET, true, true), ProxyAction::Drop);
    assert_eq!(p.total(), 4);
    assert_eq!(p.dropped(), 1);
}

#[test]
fn latest_sender_wins() {
    let mut p = LossyProxy::new(LISTEN, TARGET, false);
    p.on_datagram(SENDER, false, false);
    p.on_datagram(SENDER + 1, false, false);
    assert_eq!(p.on_datagram(TARGET, true, false), ProxyAction::Forward(SENDER + 1));
}
