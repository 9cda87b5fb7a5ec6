use deka_pm::module_resolution::{module_spec_probes, Probe};

fn s(v: &str) -> String {
    v.to_string()
}

fn view(p: &[Probe]) -> Vec<(String, bool, Option<String>)> {
    p.iter().map(|p| (p.base.clone(), p.public, p.boundary.clone())).collect()
}

#[test]
fn root_alias_is_probed_inside_the_project() {
    let probes = module_spec_probes("/proj", "/proj/ds_modules", None, "@/src/pages/foo", &vec![], &vec![]);
    assert_eq!(view(&probes), vec![(s("/proj/src/pages/foo"), true, Some(s("/proj")))]);
}

#[test]
fn traversal_in_the_root_alias_is_never_probed() {
    let probes = module_spec_probes("/proj", "/proj/ds_modules", None, "@/../../etc/passwd", &vec![], &vec![]);
    assert!(probes.iter().all(|p| !p.public));
    let probes = module_spec_probes("/proj", "/proj/ds_modules", None, "@/./x", &vec![], &vec![]);
    assert!(probes.is_empty());
}

#[test]
fn linked_packages_win_over_installed_modules() {
    let linked = vec![(s("/work/ui"), vec![s("@acme/ui")])];
    let probes = module_spec_probes("/proj", "/proj/ds_modules", None, "@acme/ui/button", &vec![s("@acme/ui/button")], &linked);
    assert_eq!(
        view(&probes),
        vec![
            (s("/work/ui/button"), false, Some(s("/work/ui"))),
            (s("/proj/ds_modules/@acme/ui/button"), false, None),
        ]
    );
    let probes = module_spec_probes("/proj", "/proj/ds_modules", None, "@acme/ui", &vec![], &linked);
    assert_eq!(view(&probes), vec![(s("/work/ui"), false, Some(s("/work/ui")))]);
    let probes = module_spec_probes("/proj", "/proj/ds_modules", None, "@acme/ui/../x", &vec![], &linked);
    assert!(probes.is_empty());
}

#[test]
fn prefixed_stdlib_names_also_probe_the_deka_scope_and_the_runtime_root() {
    let probes = module_spec_probes(
        "/proj",
        "/proj/ds_modules",
        Some("/rt"),
        "encoding/json",
        &vec![s("encoding/json")],
        &vec![],
    );
    assert_eq!(
        view(&probes),
        vec![
            (s("/proj/ds_modules/encoding/json"), false, None),
            (s("/proj/ds_modules/@deka/encoding/json"), false, None),
            (s("/rt/encoding/json"), false, None),
            (s("/rt/@deka/encoding/json"), false, None),
        ]
    );
}

#[test]
fn user_scope_lives_under_its_own_directory() {
    let probes = module_spec_probes("/proj", "/proj/ds_modules", None, "@user/x", &vec![s("@user/@user/x")], &vec![]);
    assert_eq!(view(&probes), vec![(s("/proj/ds_modules/@user/x"), false, None)]);
}
