use probing::inject::{
    aligned_sp, env_of_setting, moves_within, nul_terminated, perform_injection, trap_step, GenericInjection, InjectionTrait,
    LibcAddrs, Stop, TrapStep, SHELLCODE_AARCH64,
};

#[test]
fn test_aarch64_skipped_on_non_aarch64_linux() {
    println!("Aarch64 tests skipped on non-aarch64 or non-linux platform");
}

#[test]
fn test_aarch64_shellcode() {
    assert_eq!(SHELLCODE_AARCH64.len(), 16);
    assert_eq!(SHELLCODE_AARCH64[0..4], [0x1f, 0x20, 0x03, 0xd5]);
    assert_eq!(SHELLCODE_AARCH64[4..8], [0x1f, 0x20, 0x03, 0xd5]);
    assert_eq!(SHELLCODE_AARCH64[8..12], [0x00, 0x01, 0x3f, 0xd6]);
    assert_eq!(SHELLCODE_AARCH64[12..16], [0x00, 0x00, 0x20, 0xd4]);
}

#[test]
fn stack_pointer_is_aligned_down() {
    assert_eq!(aligned_sp(0x1000), 0x1000);
    assert_eq!(aligned_sp(0x100f), 0x1000);
    assert_eq!(aligned_sp(0x1011), 0x1010);
}

#[test]
fn libc_addresses_move_with_the_library() {
    let a = LibcAddrs::from_lookups(None, Some(500), Some(900), Some(100), Some(110), Some(120), Some(130), Some(140), Some(150)).unwrap();
    assert_eq!(a.dlopen, 500);
    assert!(!a.use_libdl);
    let moved = a.change_base(100, 1000, None, None);
    assert_eq!(moved.malloc, 1000);
    assert_eq!(moved.dlopen, 1400);
    assert_eq!(moved.printf, 1050);
    let dl = LibcAddrs::from_lookups(None, None, Some(900), Some(100), Some(110), Some(120), Some(130), Some(140), Some(150)).unwrap();
    assert!(dl.use_libdl);
    assert_eq!(dl.change_base(100, 1000, Some(800), Some(5000)).dlopen, 5100);
    assert!(LibcAddrs::from_lookups(Some(1), None, None, None, Some(1), Some(1), Some(1), Some(1), Some(1)).is_none());
}

#[test]
fn settings_name_environment_variables() {
    assert_eq!(env_of_setting("probing_mode=a=b"), Some(("PROBING_MODE".to_string(), "a=b".to_string())));
    assert_eq!(env_of_setting("novalue"), None);
    assert_eq!(nul_terminated(b"ab"), vec![b'a', b'b', 0]);
}

#[test]
fn traps_end_the_wait() {
    assert_eq!(trap_step(Stop::SignalDelivery(5)), TrapStep::Trapped);
    assert_eq!(trap_step(Stop::SignalDelivery(11)), TrapStep::Unexpected(11));
    assert_eq!(trap_step(Stop::Group(19)), TrapStep::Unexpected(19));
    assert_eq!(trap_step(Stop::Other), TrapStep::Continue);
}

struct Recorder {
    log: std::rc::Rc<std::cell::RefCell<Vec<String>>>,
    fail_execute: bool,
}

impl InjectionTrait for Recorder {
    fn execute(&mut self, filename: &str) -> Result<(), String> {
        self.log.borrow_mut().push(format!("execute {}", filename));
        if self.fail_execute {
            Err("no such file".to_string())
        } else {
            Ok(())
        }
    }

    fn setenv(&mut self, name: Option<&str>, value: Option<&str>) -> Result<(), String> {
        self.log.borrow_mut().push(format!("setenv {}={}", name.unwrap(), value.unwrap()));
        Ok(())
    }

    fn remove(self) -> Result<(), String> {
        self.log.borrow_mut().push("remove".to_string());
        Ok(())
    }
}

#[test]
fn injection_steps_run_in_order() {
    let log = std::rc::Rc::new(std::cell::RefCell::new(Vec::new()));
    let r = perform_injection(
        Recorder { log: log.clone(), fail_execute: false },
        "/lib/p.so",
        &vec!["probing=1".to_string(), "plain".to_string()],
    );
    assert!(r.is_ok());
    assert_eq!(*log.borrow(), vec!["setenv PROBING=1", "execute /lib/p.so", "remove"]);

    let log2 = std::rc::Rc::new(std::cell::RefCell::new(Vec::new()));
    let err = perform_injection(Recorder { log: log2.clone(), fail_execute: true }, "/x.so", &vec![]).unwrap_err();
    assert_eq!(err.context, "failed to execute shellcode");
    assert_eq!(err.cause, "no such file");
    assert_eq!(*log2.borrow(), vec!["execute /x.so"]);

    let mut g = GenericInjection::new(Recorder { log: log2.clone(), fail_execute: false });
    g.setenv(Some("A"), Some("b")).unwrap();
    g.execute("/y.so").unwrap();
    g.remove().unwrap();
    assert_eq!(log2.borrow().len(), 4);
}

#[test]
fn rebasing_is_refused_where_an_address_would_not_fit() {
    let a = LibcAddrs {
        use_libdl: false,
        malloc: 0x1100,
        dlopen: 0x1200,
        free: 0x1300,
        putenv: 0x1400,
        setenv: 0x1500,
        getenv: 0x1600,
        printf: 0x1700,
    };
    let moved = a.try_change_base(0x1000, 0x5000, None, None).unwrap();
    assert_eq!(moved.malloc, 0x5100);
    assert_eq!(moved.dlopen, 0x5200);
    assert_eq!(moved.printf, 0x5700);
    assert!(a.try_change_base(0x1000, u64::MAX - 0x200, None, None).is_none());
    assert!(a.try_change_base(0x1150, 0x5000, None, None).is_none());
    assert!(moves_within(5, 3, 10));
    assert!(!moves_within(2, 3, 10));
    assert!(!moves_within(u64::MAX, 0, 1));
}
