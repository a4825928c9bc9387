use probing::cli::{
    backtrace_url, config_query, external_binary, get_build_info, table_grid, target_action, target_or_default,
    Commands, EndpointError, InjectCommand, Method, ProbeEndpoint, Settings, TargetAction, Transport,
};

#[test]
fn settings_become_set_statements_in_order() {
    let s = Settings {
        probing_mode: Some("1".to_string()),
        server_port: Some(8080),
        rdma_sample_rate: Some("0.50".to_string()),
        ..Default::default()
    };
    assert_eq!(
        s.to_cfg(),
        Some("set probing=1;set server.address=0.0.0.0:8080;set rdma.sample_rate=0.50;".to_string())
    );
    assert_eq!(Settings::default().to_cfg(), None);
}

#[test]
fn config_statement_joins_setting_and_options() {
    assert_eq!(
        config_query(Some("probing.x=1"), Some("set a=b;".to_string())),
        "set probing.x=1; set a=b;"
    );
    assert_eq!(config_query(Some("SET y=2"), None), "SET y=2");
    assert_eq!(config_query(None, Some("set a=b;".to_string())), "set a=b;");
    assert_eq!(
        config_query(None, None),
        "select * from information_schema.df_settings where name like 'probing.%';"
    );
}

#[test]
fn inject_settings_are_normalized() {
    let c = InjectCommand { settings: vec!["probing.torch.mode=a.b".to_string(), "OTHER=x.y".to_string()] };
    assert_eq!(c.build_settings(), vec!["probing_torch_mode=a_b".to_string(), "OTHER=x.y".to_string()]);
    assert_eq!(c.settings_query(), "set probing_torch_mode=a_b;set OTHER=x.y");
    assert_eq!(InjectCommand::default().settings_query(), "");
}

#[test]
fn targets_are_read_as_pid_or_address() {
    match ProbeEndpoint::parse("1234").unwrap() {
        ProbeEndpoint::Local { pid } => assert_eq!(pid, 1234),
        _ => panic!("expected a local target"),
    }
    match ProbeEndpoint::parse("10.0.0.1:9700").unwrap() {
        ProbeEndpoint::Remote { addr } => assert_eq!(addr, "10.0.0.1:9700"),
        _ => panic!("expected a remote target"),
    }
    assert_eq!(ProbeEndpoint::parse("a:b:c").err(), Some(EndpointError::InvalidPid));
    assert_eq!(ProbeEndpoint::parse("pid").err(), Some(EndpointError::InvalidPid));
    assert_eq!(ProbeEndpoint::parse("-3").unwrap().to_text(), "-3");
}

#[test]
fn requests_go_by_socket_or_tcp() {
    let local = ProbeEndpoint::Local { pid: 77 };
    let plan = local.plan_request("/query", Some("{}".to_string()));
    assert_eq!(plan.method, Method::Post);
    assert_eq!(plan.body, "{}");
    assert_eq!(plan.uri, "/query");
    match plan.transport {
        Transport::UnixSocket { path } => assert_eq!(path, "\0probing-77"),
        _ => panic!("expected a unix socket"),
    }
    let remote = ProbeEndpoint::Remote { addr: "h:1".to_string() };
    let plan = remote.plan_request("/x", None);
    assert_eq!(plan.method, Method::Get);
    assert_eq!(plan.body, "");
    match plan.transport {
        Transport::Tcp { addr } => assert_eq!(addr, "h:1"),
        _ => panic!("expected tcp"),
    }
}

#[test]
fn backtrace_paths() {
    assert_eq!(backtrace_url(None), "/apis/pythonext/callstack");
    assert_eq!(backtrace_url(Some(12)), "/apis/pythonext/callstack?tid=12");
}

#[test]
fn build_info_lines() {
    assert_eq!(get_build_info(None, None), "0.2.0");
    assert_eq!(
        get_build_info(Some("2024-01-01"), Some("1.80.0")),
        "0.2.0\nBuild Timestamp: 2024-01-01\nrustc version: 1.80.0"
    );
}

#[test]
fn external_subcommands_name_a_program() {
    assert_eq!(external_binary(&vec!["trace".to_string(), "-v".to_string()]), Some("probing-trace".to_string()));
    assert_eq!(external_binary(&vec![]), None);
}

#[test]
fn commands_ask_their_target() {
    match target_action(&None) {
        TargetAction::Inject(c) => assert!(c.settings.is_empty()),
        _ => panic!("expected an injection"),
    }
    match target_action(&Some(Commands::Rdma { hca_name: None })) {
        TargetAction::Rdma(h) => assert_eq!(h, ""),
        _ => panic!("expected rdma"),
    }
    let cfg = Commands::Config { options: Settings { loglevel: Some("debug".to_string()), ..Default::default() }, setting: None };
    match target_action(&Some(cfg)) {
        TargetAction::Query(q) => assert_eq!(q, "set server.log_level=debug;"),
        _ => panic!("expected a query"),
    }
    assert_eq!(target_or_default(&None), "0");
}

#[test]
fn result_grid_has_header_and_padded_rows() {
    let names = vec!["a".to_string(), "b".to_string()];
    let cols = vec![vec!["1".to_string(), "2".to_string()], vec!["x".to_string()]];
    assert_eq!(
        table_grid(&names, &cols),
        vec![
            vec!["a".to_string(), "b".to_string()],
            vec!["1".to_string(), "x".to_string()],
            vec!["2".to_string(), "".to_string()],
        ]
    );
}
