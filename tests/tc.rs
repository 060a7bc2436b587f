use eltrafico::tc::{
    activate_device, add_egress_filter, add_ingress_filter, class_show_command, clean_up,
    filter_show_command, get_filter_ids, get_free_class_id, get_free_qdisc_id, new_filter_ids,
    qdisc_show_command, tc_add_htb_class, tc_add_u32_filter, tc_remove_qdisc,
    tc_remove_u32_filter, tc_setup, QDisc, Request, SetupStage, TcError,
};

const QDISCS: &str = "qdisc noqueue 0: root refcnt 2 \nqdisc ingress ffff: parent ffff:fff1 ----------------\nqdisc htb 1: root refcnt 2 r2q 10 default 0 direct_packets_stat 0\n";

const FILTERS_BEFORE: &str = "filter parent 1: protocol ip pref 1 u32 chain 0 \nfilter parent 1: protocol ip pref 1 u32 chain 0 fh 800: ht divisor 1 \n";

const FILTERS_AFTER: &str = "filter parent 1: protocol ip pref 1 u32 chain 0 \nfilter parent 1: protocol ip pref 1 u32 chain 0 fh 800: ht divisor 1 \nfilter parent 1: protocol ip pref 1 u32 chain 0 fh 800::800 order 2048 key ht 800 bkt 0 flowid 1:3 not_in_hw \n  match 14ff0000/ffff0000 at 20\n";

fn handle() -> QDisc {
    QDisc { device: "ifb0".into(), id: 1, root_class_id: 1 }
}

#[test]
fn tc_clean() {
    assert_eq!(
        clean_up("ifb0", "wlp3s0"),
        vec![
            "tc qdisc del dev ifb0 parent root".to_string(),
            "tc qdisc del dev wlp3s0 parent root".to_string(),
            "tc qdisc del dev wlp3s0 parent ffff:fff1".to_string(),
        ]
    );
}

#[test]
fn free_qdisc_id_reads_decimal_and_hex() {
    // 0, ffff (the ingress discipline) and 1 are taken
    assert_eq!(get_free_qdisc_id(QDISCS), Ok(2));
    assert_eq!(get_free_qdisc_id(""), Ok(1));
    assert_eq!(get_free_qdisc_id("qdisc htb zz: root\n"), Err(TcError::UnreadableListing));
    assert_eq!(get_free_qdisc_id("something else\nqdisc\n"), Ok(1));
}

#[test]
fn free_class_id_counts_only_the_parent_discipline() {
    let listing = "class htb 1:1 root rate 100Kbit ceil 100Kbit burst 1600b cburst 1600b \nclass htb 1:2 parent 1:1 prio 0 rate 8bit ceil 100Kbit burst 1599b cburst 1600b \nclass htb 2:3 root rate 1Mbit\n";
    assert_eq!(get_free_class_id(listing, 1), Ok(3));
    assert_eq!(get_free_class_id(listing, 2), Ok(1));
    assert_eq!(get_free_class_id("class htb x:1 root\n", 1), Err(TcError::UnreadableListing));
    assert_eq!(get_free_class_id("class htb 1:y root\n", 1), Err(TcError::UnreadableListing));
    assert_eq!(get_free_class_id("class htb 1 root\n", 1), Ok(1));
}

#[test]
fn filter_listing_and_new_handle() {
    assert_eq!(get_filter_ids(FILTERS_BEFORE), Vec::<String>::new());
    assert_eq!(get_filter_ids(FILTERS_AFTER), vec!["800::800".to_string()]);
    assert_eq!(tc_add_u32_filter(FILTERS_BEFORE, FILTERS_AFTER), Ok("800::800".to_string()));
    assert_eq!(tc_add_u32_filter(FILTERS_AFTER, FILTERS_AFTER), Err(TcError::NoNewFilter));
    assert_eq!(
        new_filter_ids(&vec!["800::800".into()], &vec!["800::800".into(), "800::801".into(), "800::802".into()]),
        vec!["800::801".to_string(), "800::802".to_string()]
    );
}

#[test]
fn class_addition_command() {
    let listing = "class htb 1:1 root rate 100Kbit\nclass htb 1:2 parent 1:1 rate 8bit\n";
    assert_eq!(
        tc_add_htb_class(&handle(), Some("100kbps".into()), None, None, listing),
        Ok((3, "tc class add dev ifb0 parent 1:1 classid 1:3 htb rate 8 ceil 100kbps prio 0".to_string()))
    );
    assert_eq!(
        tc_add_htb_class(&handle(), None, Some("1kbps".into()), Some(4), ""),
        Ok((1, "tc class add dev ifb0 parent 1:1 classid 1:1 htb rate 1kbps ceil 4294967295 prio 4".to_string()))
    );
    assert_eq!(
        tc_add_htb_class(&handle(), None, None, None, "class htb 1:q root\n"),
        Err(TcError::UnreadableListing)
    );
}

#[test]
fn port_filter_commands() {
    let egress = QDisc { device: "wlan0".into(), id: 2, root_class_id: 1 };
    assert_eq!(
        add_ingress_filter(5123, &handle(), 7),
        "tc filter add dev ifb0 protocol ip parent 1: prio 1 u32 match ip dport 5123 0xffff flowid 1:7"
    );
    assert_eq!(
        add_egress_filter(443, &egress, 12),
        "tc filter add dev wlan0 protocol ip parent 2: prio 1 u32 match ip sport 443 0xffff flowid 2:12"
    );
    assert_eq!(
        tc_remove_u32_filter(&egress, "800::801"),
        "tc filter del dev wlan0 parent 2: handle 800::801 prio 1 protocol ip u32"
    );
}

#[test]
fn other_commands() {
    assert_eq!(tc_remove_qdisc("eth0", None), "tc qdisc del dev eth0 parent root");
    assert_eq!(tc_remove_qdisc("eth0", Some("ffff:fff1")), "tc qdisc del dev eth0 parent ffff:fff1");
    assert_eq!(activate_device("ifb1"), "ip link set dev ifb1 up");
    assert_eq!(qdisc_show_command("lo"), "tc qdisc show dev lo");
    assert_eq!(class_show_command("lo"), "tc class show dev lo");
    assert_eq!(filter_show_command("lo"), "tc filter show dev lo");
}

const DEVICES_WITH_IFB: &str = "Inter-|   Receive                                                |  Transmit\n face |bytes    packets errs drop fifo frame compressed multicast|bytes    packets errs drop fifo colls carrier compressed\n    lo:  1000      10    0    0    0     0          0         0     1000      10    0    0    0     0       0          0\n  wlan0: 2000      20    0    0    0     0          0         0     2000      20    0    0    0     0       0          0\n  ifb0:       0       0    0    0    0     0          0         0        0       0    0    0    0     0       0          0\n";

const DEVICES_WITHOUT_IFB: &str = "Inter-|   Receive\n face |bytes\n    lo:  1000\n  wlan0: 2000\n";

fn step(s: &mut eltrafico::tc::TcSetup, expected: Request, output: &str) {
    assert_eq!(s.request(), Some(expected));
    assert_eq!(s.advance(output), Ok(()));
}

fn run(c: &str) -> Request {
    Request::Run(c.to_string())
}

fn read(c: &str) -> Request {
    Request::Read(c.to_string())
}

#[test]
fn setup_builds_both_directions() {
    let mut s = tc_setup("wlan0".into(), None, None, Some("50kbps".into()), Some("5kbps".into()), None, Some(3));
    step(&mut s, run("tc qdisc add dev wlan0 handle ffff: ingress"), "");
    step(&mut s, Request::ListDevices, DEVICES_WITH_IFB);
    step(&mut s, run("ip link set dev ifb0 up"), "");
    step(
        &mut s,
        run("tc filter add dev wlan0 parent ffff: protocol ip u32 match u32 0 0 action mirred egress redirect dev ifb0"),
        "",
    );
    step(&mut s, read("tc qdisc show dev ifb0"), "qdisc noqueue 0: root refcnt 2\n");
    step(&mut s, run("tc qdisc add dev ifb0 root handle 1: htb"), "");
    step(&mut s, read("tc class show dev ifb0"), "");
    step(&mut s, run("tc class add dev ifb0 parent 1: classid 1:1 htb rate 4294967295"), "");
    step(&mut s, read("tc class show dev ifb0"), "class htb 1:1 root rate 4294Mbit ceil 4294Mbit\n");
    step(&mut s, run("tc class add dev ifb0 parent 1:1 classid 1:2 htb rate 8 ceil 4294967295 prio 0"), "");
    step(&mut s, run("tc filter add dev ifb0 parent 1: prio 2 protocol ip u32 match u32 0 0 flowid 1:2"), "");
    step(&mut s, read("tc qdisc show dev wlan0"), QDISCS);
    step(&mut s, run("tc qdisc add dev wlan0 root handle 2: htb"), "");
    step(&mut s, read("tc class show dev wlan0"), "");
    step(&mut s, run("tc class add dev wlan0 parent 2: classid 2:1 htb rate 50kbps"), "");
    step(&mut s, read("tc class show dev wlan0"), "class htb 2:1 root rate 50Kbit\n");
    step(&mut s, run("tc class add dev wlan0 parent 2:1 classid 2:2 htb rate 5kbps ceil 50kbps prio 3"), "");
    step(&mut s, run("tc filter add dev wlan0 parent 2: prio 2 protocol ip u32 match u32 0 0 flowid 2:2"), "");
    assert_eq!(s.request(), None);
    assert_eq!(s.stage, SetupStage::Done);
    let (ingress, egress) = s.result().unwrap();
    assert_eq!((ingress.device.as_str(), ingress.id, ingress.root_class_id), ("ifb0", 1, 1));
    assert_eq!((egress.device.as_str(), egress.id, egress.root_class_id), ("wlan0", 2, 1));
}

#[test]
fn setup_creates_a_redirect_device_when_none_exists() {
    let mut s = tc_setup("wlan0".into(), None, None, None, None, None, None);
    step(&mut s, run("tc qdisc add dev wlan0 handle ffff: ingress"), "");
    step(&mut s, Request::ListDevices, DEVICES_WITHOUT_IFB);
    step(&mut s, run("modprobe ifb numifbs=1"), "");
    step(&mut s, Request::ListDevices, "Inter-|\n face |\n    lo:  1\n  wlan0: 2\n  ifb3: 0\n");
    step(&mut s, run("ip link set dev ifb3 up"), "");
    assert_eq!(
        s.request(),
        Some(run("tc filter add dev wlan0 parent ffff: protocol ip u32 match u32 0 0 action mirred egress redirect dev ifb3"))
    );
    assert!(s.result().is_none());
}

#[test]
fn setup_fails_when_no_single_device_appears() {
    let mut s = tc_setup("wlan0".into(), None, None, None, None, None, None);
    step(&mut s, run("tc qdisc add dev wlan0 handle ffff: ingress"), "");
    step(&mut s, Request::ListDevices, DEVICES_WITHOUT_IFB);
    step(&mut s, run("modprobe ifb numifbs=1"), "");
    assert_eq!(s.advance(DEVICES_WITHOUT_IFB), Err(TcError::NoNewDevice));
    assert_eq!(
        s.advance("Inter-|\n face |\n    lo:  1\n  wlan0: 2\n  ifb0: 0\n  ifb1: 0\n"),
        Err(TcError::ManyNewDevices)
    );
}

#[test]
fn setup_fails_on_an_unreadable_listing() {
    let mut s = tc_setup("wlan0".into(), None, None, None, None, None, None);
    step(&mut s, run("tc qdisc add dev wlan0 handle ffff: ingress"), "");
    step(&mut s, Request::ListDevices, DEVICES_WITH_IFB);
    step(&mut s, run("ip link set dev ifb0 up"), "");
    s.advance("").unwrap();
    assert_eq!(s.request(), Some(read("tc qdisc show dev ifb0")));
    assert_eq!(s.advance("qdisc htb 1x: root\n"), Err(TcError::UnreadableListing));
    assert_eq!(s.stage, SetupStage::ShowQdisc);
}
