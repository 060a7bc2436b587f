use eltrafico::engine::{Command, DirPort, Engine, FilterEntry, PendingFilter, Phase};
use eltrafico::ipc::{LimitConfig, Message};
use eltrafico::scan::{Connection, ProcessConnections};
use eltrafico::tc::{add_ingress_filter, QDisc};

fn firefox_table() -> Vec<ProcessConnections> {
    vec![ProcessConnections {
        name: "firefox".into(),
        connections: vec![Connection {
            laddr: "192.168.1.1".into(),
            lport: 5123,
            raddr: "200.2.0.1".into(),
            rport: 443,
        }],
    }]
}

fn qdisc(device: &str, id: usize, root_class_id: usize) -> QDisc {
    QDisc { device: device.into(), id, root_class_id }
}

fn active_engine() -> Engine {
    let mut e = Engine::new();
    match e.on_message(Message::Interface("wlan0".into())) {
        Command::Setup { interface, config } => {
            assert_eq!(interface, "wlan0");
            assert_eq!(config, LimitConfig::default());
        }
        other => panic!("unexpected {:?}", other),
    }
    assert_eq!(e.phase, Phase::AwaitingInterface);
    e.installed(qdisc("ifb0", 1, 1), qdisc("wlan0", 1, 1));
    assert_eq!(e.phase, Phase::Active);
    e
}

fn download_limit(rate: &str) -> LimitConfig {
    LimitConfig { download_rate: Some(rate.into()), ..LimitConfig::default() }
}

#[test]
fn new_program_is_announced_once_and_not_filtered() {
    let mut e = active_engine();
    let table = firefox_table();
    let plan = e.plan_cycle(&table);
    assert_eq!(plan.notify, vec!["firefox".to_string()]);
    assert!(plan.add.is_empty());
    assert!(plan.remove.is_empty());
    e.finish_cycle(plan.kept, vec![]);
    let again = e.plan_cycle(&table);
    assert!(again.notify.is_empty());
    assert!(again.add.is_empty());
}

#[test]
fn assigned_download_class_gets_one_ingress_filter_then_settles() {
    let mut e = active_engine();
    let table = firefox_table();
    let first = e.plan_cycle(&table);
    e.finish_cycle(first.kept, vec![]);

    let cmd = e.on_message(Message::Program { name: "firefox".into(), config: download_limit("100kbps") });
    let (ingress_req, egress_req) = match cmd {
        Command::AddClasses { name, ingress, egress } => {
            assert_eq!(name, "firefox");
            (ingress, egress)
        }
        other => panic!("unexpected {:?}", other),
    };
    let req = ingress_req.expect("a download class");
    assert_eq!(req.qdisc.device, "ifb0");
    assert_eq!(req.ceil, "100kbps");
    assert_eq!(req.floor, None);
    assert!(egress_req.is_none());
    e.classes_added("firefox".into(), Some(2), None);

    let plan = e.plan_cycle(&table);
    assert!(plan.notify.is_empty());
    assert_eq!(plan.add, vec![PendingFilter { port: DirPort::Ingress(5123), class_id: 2 }]);
    assert!(plan.remove.is_empty());
    let (ingress, _) = e.handles.as_ref().unwrap();
    assert_eq!(
        add_ingress_filter(5123, ingress, 2),
        "tc filter add dev ifb0 protocol ip parent 1: prio 1 u32 match ip dport 5123 0xffff flowid 1:2"
    );
    e.finish_cycle(plan.kept, vec![FilterEntry { port: DirPort::Ingress(5123), filter_id: "800::800".into() }]);
    assert_eq!(e.filtered.len(), 1);

    let settled = e.plan_cycle(&table);
    assert!(settled.notify.is_empty());
    assert!(settled.add.is_empty());
    assert!(settled.remove.is_empty());
    assert_eq!(settled.kept.len(), 1);
    assert_eq!(settled.kept[0].filter_id, "800::800");
}

#[test]
fn vanished_connection_removes_its_filter() {
    let mut e = active_engine();
    let table = firefox_table();
    e.plan_cycle(&table);
    e.classes_added("firefox".into(), Some(2), Some(3));
    let plan = e.plan_cycle(&table);
    assert_eq!(
        plan.add,
        vec![
            PendingFilter { port: DirPort::Ingress(5123), class_id: 2 },
            PendingFilter { port: DirPort::Egress(5123), class_id: 3 },
        ]
    );
    e.finish_cycle(
        plan.kept,
        vec![
            FilterEntry { port: DirPort::Ingress(5123), filter_id: "800::800".into() },
            FilterEntry { port: DirPort::Egress(5123), filter_id: "800::801".into() },
        ],
    );

    let gone = e.plan_cycle(&vec![]);
    assert!(gone.add.is_empty());
    assert!(gone.kept.is_empty());
    assert_eq!(gone.remove.len(), 2);
    assert_eq!(gone.remove[0].port, DirPort::Ingress(5123));
    assert_eq!(gone.remove[0].filter_id, "800::800");
    assert_eq!(gone.remove[1].port, DirPort::Egress(5123));
    e.finish_cycle(gone.kept, vec![]);
    assert!(e.filtered.is_empty());
}

#[test]
fn shared_port_gets_a_single_filter() {
    let mut e = active_engine();
    let mut table = firefox_table();
    table[0].connections.push(Connection { laddr: "::1".into(), lport: 5123, raddr: "::2".into(), rport: 80 });
    e.plan_cycle(&table);
    e.classes_added("firefox".into(), Some(2), None);
    let plan = e.plan_cycle(&table);
    assert_eq!(plan.add, vec![PendingFilter { port: DirPort::Ingress(5123), class_id: 2 }]);
}

#[test]
fn interface_or_global_change_clears_programs_and_filters() {
    let mut e = active_engine();
    let table = firefox_table();
    e.plan_cycle(&table);
    e.classes_added("firefox".into(), Some(2), None);
    let plan = e.plan_cycle(&table);
    e.finish_cycle(plan.kept, vec![FilterEntry { port: DirPort::Ingress(5123), filter_id: "800::800".into() }]);
    assert!(!e.programs.is_empty() && !e.filtered.is_empty());

    let limits = LimitConfig { upload_rate: Some("10kbps".into()), ..LimitConfig::default() };
    match e.on_message(Message::Global { config: limits.duplicate() }) {
        Command::Rebuild { ingress_device, egress_device, interface, config } => {
            assert_eq!(ingress_device, "ifb0");
            assert_eq!(egress_device, "wlan0");
            assert_eq!(interface, "wlan0");
            assert_eq!(config, limits);
        }
        other => panic!("unexpected {:?}", other),
    }
    assert!(e.programs.is_empty());
    assert!(e.filtered.is_empty());
    e.installed(qdisc("ifb0", 1, 1), qdisc("wlan0", 1, 1));

    e.plan_cycle(&table);
    assert!(!e.programs.is_empty());
    match e.on_message(Message::Interface("eth0".into())) {
        Command::Rebuild { ingress_device, egress_device, interface, config } => {
            assert_eq!(ingress_device, "ifb0");
            assert_eq!(egress_device, "wlan0");
            assert_eq!(interface, "eth0");
            assert_eq!(config, limits);
        }
        other => panic!("unexpected {:?}", other),
    }
    assert!(e.programs.is_empty());
    assert!(e.filtered.is_empty());
    assert_eq!(e.interface, "eth0");
}

#[test]
fn stop_while_waiting_builds_and_tears_down_nothing() {
    let mut e = Engine::new();
    assert!(matches!(e.on_message(Message::Global { config: download_limit("1mbit") }), Command::Idle));
    assert!(matches!(
        e.on_message(Message::Program { name: "x".into(), config: LimitConfig::default() }),
        Command::Idle
    ));
    assert!(matches!(e.on_message(Message::Stop), Command::Exit));
    assert_eq!(e.phase, Phase::Stopped);
    assert!(matches!(e.on_message(Message::Interface("wlan0".into())), Command::Idle));
}

#[test]
fn global_limits_recorded_while_waiting_are_used_for_setup() {
    let mut e = Engine::new();
    e.on_message(Message::Global { config: download_limit("1mbit") });
    match e.on_message(Message::Interface("wlan0".into())) {
        Command::Setup { config, .. } => assert_eq!(config, download_limit("1mbit")),
        other => panic!("unexpected {:?}", other),
    }
}

#[test]
fn stop_while_active_tears_down() {
    let mut e = active_engine();
    match e.on_message(Message::Stop) {
        Command::Shutdown { ingress_device, egress_device } => {
            assert_eq!(ingress_device, "ifb0");
            assert_eq!(egress_device, "wlan0");
        }
        other => panic!("unexpected {:?}", other),
    }
    assert_eq!(e.phase, Phase::Stopped);
}

#[test]
fn program_message_replaces_classes() {
    let mut e = active_engine();
    e.classes_added("firefox".into(), Some(2), None);
    e.classes_added("firefox".into(), None, Some(4));
    assert_eq!(e.programs.len(), 1);
    assert_eq!(e.programs[0].ingress, None);
    assert_eq!(e.programs[0].egress, Some(4));
}
