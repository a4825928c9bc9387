use probing::engine_plugins::{ClusterTable, ColumnKind, FileSystemSchema, FilesPlugin, PluginType};
use probing::error::{bail, ensure, EngineError, ResultExt};
use probing::extension::{
    after_call, after_set, collect_found, config_read_outcome, options_to_settings, route_call, unrouted_call, unsupported_option,
    EngineExtension, EngineExtensionManager, EngineExtensionOption, Maybe, SetStep,
};
use probing::plugins::{
    plugin_key, start_outcome, take_sample, PluginType as CorePluginType, TaskStatsSchema, WorkerConfig, WorkerError,
};

#[test]
fn context_is_put_before_the_message() {
    let e = EngineError::QueryError("bad column".to_string()).with_context("planning");
    assert_eq!(e, EngineError::QueryError("planning: bad column".to_string()));
    assert_eq!(e.message(), "Query execution error: planning: bad column");
    let kept = EngineError::InvalidOptionValue("k".to_string(), "v".to_string()).with_context("ctx");
    assert_eq!(kept.message(), "Invalid option value: k=v");
    assert_eq!(EngineError::UnsupportedCall.with_context("x"), EngineError::UnsupportedCall);
    let r: Result<u8, EngineError> = Err(EngineError::ConfigError("m".to_string()));
    assert_eq!(r.context("c"), Err(EngineError::ConfigError("c: m".to_string())));
}

#[test]
fn ensure_and_bail_give_internal_errors() {
    assert_eq!(ensure(true, "no"), Ok(()));
    assert_eq!(ensure(false, "no"), Err(EngineError::InternalError("no".to_string())));
    assert_eq!(bail::<u8>("stop"), Err(EngineError::InternalError("stop".to_string())));
    assert_eq!(EngineError::lock_poisoned("x").message(), "Concurrency error: Lock poisoned: x");
}

#[test]
fn maybe_reads_empty_as_nothing() {
    let ok: Result<i32, ()> = Ok(3);
    assert!(matches!(Maybe::from_parse("3", ok), Maybe::Just(3)));
    let ok2: Result<i32, ()> = Ok(3);
    assert!(matches!(Maybe::from_parse("", ok2), Maybe::Nothing));
    let bad: Result<i32, ()> = Err(());
    assert!(matches!(Maybe::from_parse("x", bad), Maybe::Nothing));
    assert_eq!(Maybe::Just(4).into_option(), Some(4));
    assert_eq!(Maybe::<String>::Nothing.to_text(), "");
}

#[test]
fn calls_are_routed_by_extension_name() {
    assert_eq!(route_call("/torch/profile/start", "torch"), Some("profile/start".to_string()));
    assert_eq!(route_call("/torch", "torch"), None);
    assert_eq!(route_call("/pythonext/x", "torch"), None);
    assert_eq!(unrouted_call("/p"), EngineError::CallError("/p".to_string()));
}

#[test]
fn a_routed_call_keeps_the_segments_after_the_first() {
    assert_eq!(route_call("/a/b/c", "a/b"), Some("b/c".to_string()));
    assert_eq!(route_call("/a/b/c", "a"), Some("b/c".to_string()));
    assert_eq!(route_call("/torch/", "torch"), Some("".to_string()));
    assert_eq!(route_call("/a/b", "a/b"), None);
}

#[test]
fn routing_steps() {
    assert!(matches!(after_set(Ok("old".to_string())), SetStep::Done));
    assert!(matches!(after_set(Err(unsupported_option("k"))), SetStep::Next));
    assert!(matches!(after_set(Err(EngineError::ReadOnlyOption("k".to_string()))), SetStep::Fail(_)));
    assert_eq!(after_call(Err(EngineError::UnsupportedCall)), None);
    assert_eq!(after_call(Ok(vec![1])), Some(Ok(vec![1])));
    assert_eq!(config_read_outcome(Err(unsupported_option("k"))), Ok(None));
    assert_eq!(config_read_outcome(Ok("v".to_string())), Ok(Some("v".to_string())));
}

#[test]
fn options_with_values_become_settings() {
    let opts = vec![
        EngineExtensionOption { key: "a".to_string(), value: Some("1".to_string()), help: "" },
        EngineExtensionOption { key: "b".to_string(), value: None, help: "" },
        EngineExtensionOption { key: "a".to_string(), value: Some("2".to_string()), help: "" },
    ];
    assert_eq!(options_to_settings(&opts), vec![("a".to_string(), "2".to_string())]);
    assert_eq!(opts[1].setting_key(), "probing.b");
}

#[test]
fn plugins_describe_themselves() {
    let f = FilesPlugin::default();
    assert_eq!(f.name(), "files");
    assert_eq!(f.category(), "files");
    assert_eq!(f.kind(), PluginType::SchemaProviderPlugin);
    let names = vec!["a.csv".to_string(), "b.txt".to_string(), "c.csv".to_string(), "csv".to_string()];
    assert_eq!(FileSystemSchema::table_names(&names), vec!["a.csv".to_string(), "c.csv".to_string()]);
    assert_eq!(ClusterTable::name(), "nodes");
    let cols = ClusterTable::schema();
    assert_eq!(cols.len(), 12);
    assert_eq!(cols[0].name, "host");
    assert!(!cols[0].nullable);
    assert_eq!(cols[11].kind, ColumnKind::TimestampMicros);
    assert_eq!(TaskStatsSchema::name(), "process");
    assert_eq!(TaskStatsSchema::list(), vec!["cpu", "memory", "io"]);
}

#[test]
fn worker_counts_down_its_samples() {
    let cfg = WorkerConfig::default();
    assert_eq!(cfg.interval, std::time::Duration::from_secs(1));
    assert_eq!(cfg.iterations, None);
    let mut left = Some(2);
    assert!(take_sample(&mut left));
    assert!(take_sample(&mut left));
    assert!(!take_sample(&mut left));
    assert_eq!(left, Some(0));
    let mut unlimited = None;
    assert!(take_sample(&mut unlimited));
    assert_eq!(start_outcome(true), Err(WorkerError::AlreadyRunning));
    assert_eq!(start_outcome(false), Ok(()));
}

#[test]
fn plugins_are_keyed_by_category() {
    assert_eq!(plugin_key(CorePluginType::Schema, "files", "x"), "probe.files");
    assert_eq!(plugin_key(CorePluginType::Table, "cluster", "nodes"), "probe.cluster.nodes");
}

#[derive(Debug)]
struct MyExtension {
    name: String,
    some_option: String,
}

impl EngineExtension for MyExtension {
    fn name(&self) -> String {
        self.name.clone()
    }

    fn set(&mut self, key: &str, value: &str) -> Result<String, EngineError> {
        match key {
            "some_option" => {
                let old = self.some_option.clone();
                self.some_option = value.to_string();
                Ok(old)
            }
            "read_only" => Err(EngineError::ReadOnlyOption(key.to_string())),
            _ => Err(EngineError::UnsupportedOption(key.to_string())),
        }
    }

    fn get(&self, key: &str) -> Result<String, EngineError> {
        match key {
            "some_option" => Ok(self.some_option.clone()),
            _ => Err(EngineError::UnsupportedOption(key.to_string())),
        }
    }

    fn options(&self) -> Vec<EngineExtensionOption> {
        vec![EngineExtensionOption {
            key: "some_option".to_string(),
            value: Some(self.some_option.clone()),
            help: "An example option",
        }]
    }

    fn call(&self, path: &str, _params: &Vec<(String, String)>, _body: &[u8]) -> Result<Vec<u8>, EngineError> {
        match path {
            "status" => Ok(format!("{}:{}", self.name, self.some_option).into_bytes()),
            _ => Err(EngineError::UnsupportedCall),
        }
    }
}

#[test]
fn manager_routes_settings_to_the_extension_that_knows_them() {
    let mut ext = MyExtension { name: "my_extension".to_string(), some_option: "default".to_string() };
    assert_eq!(ext.name(), "my_extension");
    assert_eq!(ext.set("some_option", "new").unwrap(), "default");
    assert_eq!(ext.get("some_option").unwrap(), "new");

    let mut manager = EngineExtensionManager::new();
    manager.register(MyExtension { name: "my_extension".to_string(), some_option: "default".to_string() });
    manager.set_option("some_option", "new").unwrap();
    assert_eq!(manager.get_option("some_option").unwrap(), "new");
    assert_eq!(manager.options().len(), 1);
    assert_eq!(manager.set_option("missing", "x"), Err(EngineError::UnsupportedOption("missing".to_string())));
    assert_eq!(manager.get_option("missing"), Err(EngineError::UnsupportedOption("missing".to_string())));
    assert_eq!(manager.set_option("read_only", "x"), Err(EngineError::ReadOnlyOption("read_only".to_string())));
}

#[test]
fn manager_offers_in_name_order_and_routes_calls_by_name() {
    let mut manager = EngineExtensionManager::new();
    manager.register(MyExtension { name: "zeta".to_string(), some_option: "z".to_string() });
    manager.register(MyExtension { name: "alpha".to_string(), some_option: "a".to_string() });
    // Both know the option; the first in name order takes it.
    manager.set_option("some_option", "changed").unwrap();
    assert_eq!(manager.call("/alpha/status", &vec![], b""), Ok(b"alpha:changed".to_vec()));
    assert_eq!(manager.call("/zeta/status", &vec![], b""), Ok(b"zeta:z".to_vec()));
    let options = manager.options();
    assert_eq!(options[0].value, Some("changed".to_string()));
    assert_eq!(options[1].value, Some("z".to_string()));
    assert_eq!(manager.call("/zeta/other", &vec![], b""), Err(EngineError::CallError("/zeta/other".to_string())));
    assert_eq!(manager.call("/none/status", &vec![], b""), Err(EngineError::CallError("/none/status".to_string())));
    // Registering again under a name replaces the extension.
    manager.register(MyExtension { name: "alpha".to_string(), some_option: "fresh".to_string() });
    assert_eq!(manager.get_option("some_option").unwrap(), "fresh");
    assert_eq!(manager.options().len(), 2);
}

#[test]
fn reading_several_keys_keeps_the_values_found() {
    let keys = vec!["a".to_string(), "b".to_string(), "a".to_string(), "c".to_string()];
    let reads = vec![
        Ok("1".to_string()),
        Err(EngineError::UnsupportedOption("b".to_string())),
        Ok("3".to_string()),
        Ok("4".to_string()),
    ];
    let mut found = collect_found(&keys, reads);
    found.sort();
    assert_eq!(found, vec![("a".to_string(), "3".to_string()), ("c".to_string(), "4".to_string())]);
}
