use gyroflow_bench::sysinfo::{
    collect_git, collect_host, core_rev, cpu_model, hostname, plugin_rev, repo_root, usable,
};

fn some(s: &str) -> Option<String> {
    Some(s.to_string())
}

#[test]
fn answers_are_trimmed() {
    assert_eq!(usable(&some(" host \n")), some("host"));
    assert_eq!(usable(&some("\u{2003}\t\r\n")), None);
    assert_eq!(usable(&None), None);
}

#[test]
fn the_first_usable_name_is_the_host() {
    assert_eq!(hostname(&[None, some("  "), some("box\n"), some("other")]), "box");
    assert_eq!(hostname(&[some("")]), "unknown");
    assert_eq!(hostname(&[]), "unknown");
}

#[test]
fn processor_model_is_read_off_the_first_line_that_gives_it() {
    let info = "processor\t: 0\r\nmodel name without colon\nmodel name\t: AMD: Ryzen 9 \nmodel name\t: B\n";
    assert_eq!(cpu_model(&None, &some(info)), "AMD: Ryzen 9");
    assert_eq!(cpu_model(&None, &some("model name :")), "");
    assert_eq!(cpu_model(&None, &some(" model name: x")), "unknown");
    assert_eq!(cpu_model(&None, &None), "unknown");
    assert_eq!(cpu_model(&some("Apple M1\n"), &None), "Apple M1");
    assert_eq!(cpu_model(&some(" \n"), &None), "unknown");
}

#[test]
fn core_revision_is_read_off_the_manifest() {
    let manifest = "# gyroflow-core = { rev = \"old\" }\n\
        [dependencies]\n\
        other = { rev = \"x\" }\n\
        \x20 gyroflow-core = { git = \"url\", rev = \"abc123\", features = [\"a\"] }\n\
        gyroflow-core = { rev = \"later\" }\n";
    assert_eq!(core_rev(&some(manifest)), "abc123");
    assert_eq!(core_rev(&some("gyroflow-core = \"1\"")), "unknown");
    assert_eq!(core_rev(&some("gyroflow-core = { rev = \"open")), "unknown");
    assert_eq!(core_rev(&None), "unknown");
}

#[test]
fn revisions_are_collected() {
    assert_eq!(plugin_rev(&some("deadbeef\n")), "deadbeef");
    assert_eq!(plugin_rev(&some("\n")), "unknown");
    let git = collect_git(&some("f00 \n"), &some("gyroflow-core = { rev = \"c0\" }"));
    assert_eq!((git.plugin_rev.as_str(), git.core_rev.as_str()), ("f00", "c0"));
    let git = collect_git(&None, &None);
    assert_eq!((git.plugin_rev.as_str(), git.core_rev.as_str()), ("unknown", "unknown"));
}

#[test]
fn host_is_collected() {
    let host = collect_host(&[some("h")], "linux", "x86_64", &None, &some("model name: Z"), None);
    assert_eq!(host.hostname, "h");
    assert_eq!(host.os, "linux");
    assert_eq!(host.arch, "x86_64");
    assert_eq!(host.cpu_model, "Z");
    assert_eq!(host.cpu_cores, 0);
    assert_eq!(collect_host(&[], "", "", &None, &None, Some(8)).cpu_cores, 8);
}

#[test]
fn repository_root_is_trimmed() {
    assert_eq!(repo_root(&some("/a/b\n")), some("/a/b"));
    assert_eq!(repo_root(&some("\n")), some(""));
    assert_eq!(repo_root(&None), None);
}
