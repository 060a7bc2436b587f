use std::collections::HashMap;

use eltrafico::scan::{
    acquire_ifb_device, created_ifb_device, ifconfig, lsof, ss, ss_parse, Connection, IfbChoice,
    Interface, NewDeviceError, ProcessConnections, Status,
};

fn as_map(table: Vec<ProcessConnections>) -> HashMap<String, Vec<Connection>> {
    table.into_iter().map(|p| (p.name, p.connections)).collect()
}

fn device(name: &str, status: Status) -> Interface {
    Interface { name: name.into(), status }
}

#[test]
fn test_ss_parse() {
    let row = r#"0              0                        192.168.1.1:5123                     200.2000.200.1111:443            users:(("firefox",pid=1996,fd=128))"#;
    {
        let mut process = Vec::new();
        ss_parse(row, &mut process);
        assert_eq!(
            as_map(process),
            [(
                "firefox".to_string(),
                vec!(Connection {
                    laddr: "192.168.1.1".into(),
                    lport: 5123,
                    raddr: "200.2000.200.1111".into(),
                    rport: 443,
                })
            )]
            .into_iter()
            .collect()
        )
    }
    let two_rows_ipv6 = r#"0      0                        [::1]:9100                                 [::2]:33586               users:(("node_exporter",pid=111305,fd=5))
0      0                        [::1]:33586                                [::1]:9100                users:(("sshd",pid=261247,fd=10))
"#;
    {
        let mut process = Vec::new();
        two_rows_ipv6.split("\n").for_each(|row| {
            ss_parse(row, &mut process);
        });
        assert_eq!(
            as_map(process),
            [
                (
                    "node_exporter".to_string(),
                    vec!(Connection {
                        laddr: "::1".into(),
                        lport: 9100,
                        raddr: "::2".into(),
                        rport: 33586,
                    })
                ),
                (
                    "sshd".to_string(),
                    vec!(Connection {
                        laddr: "::1".into(),
                        lport: 33586,
                        raddr: "::1".into(),
                        rport: 9100,
                    })
                )
            ]
            .into_iter()
            .collect()
        )
    }
}

#[test]
fn tss() {
    let out = "Recv-Q Send-Q Local Address:Port Peer Address:Port Process\n0 0 10.0.0.2:5123 1.1.1.1:443 users:((\"firefox\",pid=1,fd=3))\n0 0 10.0.0.2:5124 1.1.1.1:443 users:((\"firefox\",pid=1,fd=4))\n0 0 10.0.0.2:22 10.0.0.9:51000 users:((\"sshd\",pid=9,fd=3))\n";
    let table = ss(out);
    assert_eq!(table.len(), 2);
    assert_eq!(table[0].name, "firefox");
    assert_eq!(table[0].connections.iter().map(|c| c.lport).collect::<Vec<_>>(), vec![5123, 5124]);
    assert_eq!(table[1].name, "sshd");
    assert_eq!(ss("State Recv-Q\n").len(), 0);
    assert_eq!(ss("").len(), 0);
}

#[test]
fn ss_row_with_bad_port_keeps_the_process() {
    let mut t = Vec::new();
    assert_eq!(ss_parse("0 0 1.2.3.4:http 5.6.7.8:443 users:((\"curl\",pid=5,fd=3))", &mut t), None);
    assert_eq!(t.len(), 1);
    assert_eq!(t[0].name, "curl");
    assert!(t[0].connections.is_empty());
    assert_eq!(ss_parse("0 0 1.2.3.4 5.6.7.8:443 users:((\"curl\",pid=5,fd=3))", &mut t), None);
    assert_eq!(ss_parse("too short", &mut t), None);
    assert_eq!(t.len(), 1);
}

#[test]
fn utils_tifconfig() {
    let table = "Inter-|   Receive                                                |  Transmit\n face |bytes    packets errs drop fifo frame compressed multicast|bytes    packets errs drop fifo colls carrier compressed\n    lo: 1 2 3\n wlp3s0: 4 5 6\n";
    let devices = ifconfig(table);
    assert_eq!(devices, vec![device("lo", Status::Down), device("wlp3s0", Status::Down)]);
    assert!(!devices[0].is_up());
    assert!(ifconfig("header only\n").is_empty());
}

#[test]
fn redirect_device_choice() {
    assert_eq!(
        acquire_ifb_device(&vec![device("lo", Status::Up), device("ifb0", Status::Down), device("ifb1", Status::Up)]),
        IfbChoice::Activate("ifb0".into())
    );
    assert_eq!(acquire_ifb_device(&vec![device("ifb2", Status::Up)]), IfbChoice::Use("ifb2".into()));
    assert_eq!(acquire_ifb_device(&vec![device("eth0", Status::Up)]), IfbChoice::Create);
    assert!(device("x", Status::Up).is_up());
}

#[test]
fn created_device_is_the_single_new_name() {
    let before = vec![device("lo", Status::Down)];
    let after = vec![device("lo", Status::Down), device("ifb0", Status::Down)];
    assert_eq!(created_ifb_device(&before, &after), Ok("ifb0".to_string()));
    assert_eq!(created_ifb_device(&before, &before), Err(NewDeviceError::NoneAppeared));
    let two = vec![device("ifb0", Status::Down), device("ifb1", Status::Down)];
    assert_eq!(created_ifb_device(&before, &two), Err(NewDeviceError::Several));
}

const LSOF: &str = "COMMAND     PID USER   FD   TYPE DEVICE SIZE/OFF NODE NAME\nfirefox    1996 me   128u  IPv4  51234      0t0  TCP 192.168.1.2:5123->200.2.0.1:443 (ESTABLISHED)\nsshd        900 root   3u  IPv4  11111      0t0  TCP *:22 (LISTEN)\nfirefox    1996 me   129u  IPv4  51235      0t0  TCP 192.168.1.2:5124->200.2.0.1:443 (ESTABLISHED)\nsshd        901 root   4u  IPv4  11112      0t0  TCP 192.168.1.2:22->192.168.1.9:51000 (ESTABLISHED)\n";

#[test]
fn utils_tlsof() {
    let table = lsof(LSOF);
    assert_eq!(table.len(), 2);
    assert_eq!(table[0].name, "firefox");
    assert_eq!(
        table[0].connections,
        vec![
            Connection { laddr: "192.168.1.2".into(), lport: 5123, raddr: "200.2.0.1".into(), rport: 443 },
            Connection { laddr: "192.168.1.2".into(), lport: 5124, raddr: "200.2.0.1".into(), rport: 443 },
        ]
    );
    assert_eq!(table[1].name, "sshd");
    assert_eq!(table[1].connections.len(), 1);
}

#[test]
fn lsof_tlsof() {
    assert!(lsof("COMMAND PID\n").is_empty());
    assert!(lsof("").is_empty());
    let listening_only = "COMMAND PID\nsshd 900 root 3u IPv4 11111 0t0 TCP *:22 (LISTEN)\n";
    assert!(lsof(listening_only).is_empty());
}
