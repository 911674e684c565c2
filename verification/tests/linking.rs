use seastar::builder::linking::link_objects;

fn strings(items: &[&str]) -> Vec<String> {
    items.iter().map(|s| s.to_string()).collect()
}

#[test]
fn link_without_archives_has_no_group() {
    let inv = link_objects("gcc", &strings(&["a.o", "b.o"]), "target/app", &false, "-lm  -pthread");
    assert_eq!(inv.program, "gcc");
    assert_eq!(inv.args, strings(&["a.o", "b.o", "-lm", "-pthread", "-o", "target/app"]));
}

#[test]
fn link_group_starts_before_the_first_archive_and_ends_behind_the_last_input() {
    let inputs = strings(&["a.o", "deps/x/libx.a", "b.o", "deps/y/liby.a", "c.o"]);
    let inv = link_objects("g++", &inputs, "target/app", &false, "");
    assert_eq!(inv.program, "g++");
    assert_eq!(
        inv.args,
        strings(&[
            "a.o",
            "-Wl,--start-group",
            "deps/x/libx.a",
            "b.o",
            "deps/y/liby.a",
            "c.o",
            "-Wl,--end-group",
            "-o",
            "target/app",
        ])
    );
}

#[test]
fn link_group_holds_each_marker_once() {
    let inputs = strings(&["l1.a", "l2.a", "l3.a"]);
    let inv = link_objects("gcc", &inputs, "out", &false, "-lm");
    let starts = inv.args.iter().filter(|a| a.as_str() == "-Wl,--start-group").count();
    let ends = inv.args.iter().filter(|a| a.as_str() == "-Wl,--end-group").count();
    assert_eq!(starts, 1);
    assert_eq!(ends, 1);
    assert_eq!(inv.args, strings(&["-Wl,--start-group", "l1.a", "l2.a", "l3.a", "-Wl,--end-group", "-lm", "-o", "out"]));
}

#[test]
fn link_group_around_a_last_archive() {
    let inv = link_objects("gcc", &strings(&["a.o", "l.a"]), "out", &false, "");
    assert_eq!(inv.args, strings(&["a.o", "-Wl,--start-group", "l.a", "-Wl,--end-group", "-o", "out"]));
}

#[test]
fn link_of_nothing_names_only_the_output() {
    let inv = link_objects("gcc", &Vec::new(), "out", &false, "   ");
    assert_eq!(inv.args, strings(&["-o", "out"]));
}

#[test]
fn archive_mode_runs_the_archiver() {
    let inputs = strings(&["a.o", "deps/x/libx.a", "b.o"]);
    let inv = link_objects("g++", &inputs, "target/libapp.a", &true, "-lm");
    assert_eq!(inv.program, "ar");
    assert_eq!(inv.args, strings(&["rcs", "target/libapp.a", "a.o", "deps/x/libx.a", "b.o"]));
}
