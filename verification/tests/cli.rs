use flash::cli::args::{parse_dev_args, parse_port_flag, parse_run_args, parse_u16, RunMode};
use flash::cli::dev::reload_label;
use flash::cli::devices::{unavailable_reason, Device};
use flash::cli::docs::content_type_for;
use flash::cli::project::{flash_toml, parse_toml_string, project_from_manifest};
use flash::cli::ui::cmd;
use flash::ir::{DepTable, IrExpr, NodeId, NodeIr, NodeKind, ScreenIr, SlotDef, TypeKind};
use flash::runtime::hot_reload::{DevSession, HotReloadKind, HotReloadResult};
use flash::span::Symbol;

fn args(v: &[&str]) -> Vec<String> {
    v.iter().map(|s| s.to_string()).collect()
}

#[test]
fn devices_parse_and_name() {
    assert_eq!(Device::parse("sim"), Some(Device::Simulator));
    assert_eq!(Device::parse("desktop"), Some(Device::Simulator));
    assert_eq!(Device::parse("android"), Some(Device::Android));
    assert_eq!(Device::parse("Android"), None);
    assert_eq!(Device::default(), Device::Simulator);
    for d in [Device::Simulator, Device::Native, Device::Ios, Device::Android] {
        assert_eq!(Device::parse(d.id()), Some(d));
    }
    assert_eq!(Device::Native.label(), "Native (command buffer)");
    assert_eq!(unavailable_reason(Device::Android), "Set ANDROID_HOME (install Android Studio)");
    assert_eq!(unavailable_reason(Device::Native), "");
}

#[test]
fn run_args_select_mode_and_file() {
    let (p, m) = parse_run_args(&args(&["flash", "run", "ios", "home.ui"]));
    assert_eq!((p.as_str(), m), ("home.ui", RunMode::Ios));
    let (p, m) = parse_run_args(&args(&["flash", "run", "--native", "a.ui"]));
    assert_eq!((p.as_str(), m), ("a.ui", RunMode::Native));
    let (p, m) = parse_run_args(&args(&["flash", "run", "a.ui", "android", "b.ui"]));
    assert_eq!((p.as_str(), m), ("a.ui", RunMode::Mock));
    let (p, m) = parse_run_args(&args(&["flash", "run", "-x"]));
    assert_eq!((p.as_str(), m), ("", RunMode::Mock));
    let (p, m) = parse_run_args(&args(&["flash", "run", "ios"]));
    assert_eq!((p.as_str(), m), ("ios", RunMode::Mock));
}

#[test]
fn dev_args_file_and_native_flag() {
    assert_eq!(parse_dev_args(&args(&["flash", "dev"])), (None, false));
    assert_eq!(
        parse_dev_args(&args(&["flash", "dev", "--native", "x.ui", "y.ui"])),
        (Some("x.ui".to_string()), true)
    );
    assert_eq!(parse_dev_args(&args(&["flash", "dev", "-q", "z.ui"])), (Some("z.ui".to_string()), false));
}

#[test]
fn port_flags() {
    assert_eq!(parse_port_flag(&args(&["flash", "docs", "--port", "8080"])), Some(8080));
    assert_eq!(parse_port_flag(&args(&["flash", "docs", "-p", "+81"])), Some(81));
    assert_eq!(parse_port_flag(&args(&["flash", "docs", "--port=65535"])), Some(65535));
    assert_eq!(parse_port_flag(&args(&["flash", "docs", "--port=65536"])), None);
    assert_eq!(parse_port_flag(&args(&["flash", "docs", "--port"])), None);
    assert_eq!(parse_port_flag(&args(&["flash", "docs"])), None);
    assert_eq!(parse_u16("-0"), None);
    assert_eq!(parse_u16("+"), None);
    assert_eq!(parse_u16("007"), Some(7));
    assert_eq!(parse_u16(" 7"), None);
}

#[test]
fn toml_strings() {
    let text = "# comment\n  name=\"demo\"  \r\nentry = ui/x.ui\nname = other\n";
    assert_eq!(parse_toml_string(text, "name"), Some("demo".to_string()));
    assert_eq!(parse_toml_string(text, "entry"), Some("ui/x.ui".to_string()));
    assert_eq!(parse_toml_string(text, "path"), None);
    assert_eq!(parse_toml_string("key = \"a=b\"", "key"), Some("a=b".to_string()));
    assert_eq!(parse_toml_string("keys = 1", "key"), None);
}

#[test]
fn created_manifest_reads_back() {
    let toml = flash_toml("my_app");
    assert!(toml.starts_with("# Flash app manifest"));
    assert_eq!(parse_toml_string(&toml, "name"), Some("my_app".to_string()));
    assert_eq!(parse_toml_string(&toml, "entry"), Some("ui/screens/home.ui".to_string()));
    let p = project_from_manifest(&toml, "/tmp/my_app".to_string());
    assert_eq!(p.name, "my_app");
    assert_eq!(p.entry, "ui/screens/home.ui");
    let d = project_from_manifest("", ".".to_string());
    assert_eq!(d.name, "app");
    assert_eq!(d.entry, "ui/screens/home.ui");
}

#[test]
fn content_types() {
    assert_eq!(content_type_for(Some("html")), "text/html; charset=utf-8");
    assert_eq!(content_type_for(Some("svg")), "image/svg+xml");
    assert_eq!(content_type_for(Some("HTML")), "application/octet-stream");
    assert_eq!(content_type_for(None), "application/octet-stream");
}

#[test]
fn bold_command() {
    assert_eq!(cmd("flash run"), "\x1b[1mflash run\x1b[0m");
}

#[test]
fn reload_labels() {
    let screen = ScreenIr {
        name: Symbol(0),
        slots: vec![
            SlotDef { name: Symbol(1), ty: TypeKind::Int, init: IrExpr::Int(0) },
            SlotDef { name: Symbol(2), ty: TypeKind::Int, init: IrExpr::Int(0) },
        ],
        nodes: vec![NodeIr { kind: NodeKind::TEXT, parent: None, children: vec![], handler: None }],
        static_props: vec![],
        update_ops: vec![],
        deps: DepTable::build(2, &[]),
        handlers: vec![],
        actions: vec![],
        listens: vec![],
        exprs: vec![],
    };
    let session = DevSession::mount(screen);
    let hot = HotReloadResult { kind: HotReloadKind::HotReload, props_patched: 12, slots_preserved: true };
    assert_eq!(reload_label(&hot, &session), "Hot reload — 12 prop(s) patched, state preserved");
    let restart = HotReloadResult { kind: HotReloadKind::HotRestart, props_patched: 1, slots_preserved: true };
    assert_eq!(reload_label(&restart, &session), "Hot restart — tree remounted, 2 slot(s) preserved");
    let _ = NodeId(0);
}

#[test]
fn manifests_read_back() {
    for name in ["My App", "", "x=y", " spaced "] {
        let text = flash_toml(name);
        let p = project_from_manifest(&text, "/tmp/app".to_string());
        assert_eq!(p.name, name);
        assert_eq!(p.entry, "ui/screens/home.ui");
        assert_eq!(p.root, "/tmp/app");
    }
}
