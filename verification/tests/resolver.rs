use libdeps::types::{DefinedDependency, Library, LibraryHolder};
use libdeps::utils::search_library;
use libdeps::parse::unresolved_for;
use libdeps::report::{classify, classify_all, sort_by_path, LibClass};

fn holder(registry: &str) -> LibraryHolder {
    LibraryHolder::new(registry).expect("registry parses")
}

fn paths_of(h: &LibraryHolder, idxs: &[usize]) -> Vec<String> {
    idxs.iter().map(|&i| h.libs[i].path.clone()).collect()
}

#[test]
fn defined_dependency_keeps_fields() {
    let d = DefinedDependency::new(String::from("libbar.so"), String::from("/v/libbar.so"));
    assert_eq!(d.name, "libbar.so");
    assert_eq!(d.path, "/v/libbar.so");
}

#[test]
fn library_name_is_last_segment() {
    let lib = Library::new(String::from("/vendor/lib64/libfoo.so"), Vec::new());
    assert_eq!(lib.name, "libfoo.so");
    assert_eq!(lib.path, "/vendor/lib64/libfoo.so");
}

#[test]
fn library_bitness_follows_directory() {
    let l64 = Library::new(String::from("/vendor/lib64/libfoo.so"), Vec::new());
    assert!(!l64.is_32_bit);
    let l32 = Library::new(String::from("/vendor/lib/libfoo.so"), Vec::new());
    assert!(l32.is_32_bit);
    // Only the directory portion decides: a file name containing lib64
    // under a plain lib directory is still 32-bit.
    let tricky = Library::new(String::from("/vendor/lib/lib64ish.so"), Vec::new());
    assert!(tricky.is_32_bit);
}

#[test]
fn parser_builds_nodes_in_file_order() {
    let h = holder("/vendor/lib64/liba.so;\n/vendor/lib64/libb.so;\n");
    assert_eq!(h.libs.len(), 2);
    assert_eq!(h.libs[0].path, "/vendor/lib64/liba.so");
    assert_eq!(h.libs[1].path, "/vendor/lib64/libb.so");
    assert_eq!(h.libs[0].name, "liba.so");
}

#[test]
fn parser_skips_blank_lines() {
    let h = holder("\n/vendor/lib/liba.so;\n\n\n/vendor/lib/libb.so;\n\n");
    assert_eq!(h.libs.len(), 2);
}

#[test]
fn parser_rejects_line_without_separator() {
    let r = LibraryHolder::new("/vendor/lib/liba.so;\nno-separator-here\n");
    match r {
        Err(e) => assert_eq!(e.line, 1),
        Ok(_) => panic!("malformed registry accepted"),
    }
}

#[test]
fn parser_splits_name_and_path_tokens() {
    let h = holder("/vendor/lib64/liba.so;libb.so>/vendor/lib64/libb.so,libc2.so\n");
    let deps = &h.libs[0].defined_deps;
    assert_eq!(deps.len(), 2);
    assert_eq!(deps[0].name, "libb.so");
    assert_eq!(deps[0].path, "/vendor/lib64/libb.so");
    assert_eq!(deps[1].name, "libc2.so");
    assert_eq!(deps[1].path, "libc2.so");
}

#[test]
fn parser_filters_excluded_base_libraries() {
    let h = holder(
        "/vendor/lib64/liba.so;liblog.so,libbar.so,libc.so,libm.so,libdl.so,libutils.so,libcutils.so,libhidlbase.so,libc++.so\n/vendor/lib64/libbar.so;\n",
    );
    let deps = &h.libs[0].defined_deps;
    assert_eq!(deps.len(), 1);
    assert_eq!(deps[0].name, "libbar.so");
}

#[test]
fn path_dependencies_resolve_within_own_bitness() {
    let h = holder(
        "/vendor/lib/liba.so;libb.so>/other/libb.so\n/vendor/lib64/liba.so;libb.so>/other/libb.so\n/vendor/lib/libb.so;\n/vendor/lib64/libb.so;\n",
    );
    // The declared path matches no record exactly, so the fallback matches
    // by base name within the declaring library's own bitness.
    assert_eq!(h.libs[0].found_deps, vec![2]);
    assert_eq!(h.libs[1].found_deps, vec![3]);
}

#[test]
fn bare_name_dependencies_prefer_64_bit() {
    let h = holder("/vendor/lib/liba.so;libb.so\n/vendor/lib/libb.so;\n/vendor/lib64/libb.so;\n");
    // A dependency declared by bare name follows the bare-name rule: the
    // 64-bit variant wins even for a 32-bit declaring library.
    assert_eq!(h.libs[0].found_deps, vec![2]);
}

#[test]
fn unresolvable_dependency_drops_edge_and_is_reported() {
    let h = holder("/vendor/lib64/liba.so;libghost.so,libb.so\n/vendor/lib64/libb.so;\n");
    assert_eq!(h.libs[0].found_deps, vec![1]);
    let missing = unresolved_for(&h.libs, 0);
    assert_eq!(missing, vec![String::from("libghost.so")]);
    assert_eq!(unresolved_for(&h.libs, 1), Vec::<String>::new());
}

#[test]
fn locate_exact_path_wins_over_any_hint() {
    let h = holder("/vendor/lib/libbar.so;\n/vendor/lib64/libbar.so;\n");
    // The exact 32-bit path is returned even under a 64-bit hint.
    assert_eq!(search_library(&h.libs, "/vendor/lib/libbar.so", Some(false)), Some(0));
    assert_eq!(search_library(&h.libs, "/vendor/lib/libbar.so", Some(true)), Some(0));
    assert_eq!(search_library(&h.libs, "/vendor/lib/libbar.so", None), Some(0));
    assert_eq!(search_library(&h.libs, "/vendor/lib64/libbar.so", Some(true)), Some(1));
}

#[test]
fn locate_bare_name_prefers_64_bit() {
    let h = holder("/vendor/lib/libbar.so;\n/vendor/lib64/libbar.so;\n");
    assert_eq!(search_library(&h.libs, "libbar.so", None), Some(1));
}

#[test]
fn locate_bare_name_falls_back_to_32_bit() {
    let h = holder("/vendor/lib/libonly32.so;\n");
    assert_eq!(search_library(&h.libs, "libonly32.so", None), Some(0));
}

#[test]
fn locate_unknown_path_falls_back_by_name_and_bitness() {
    let h = holder("/vendor/lib/libbar.so;\n/vendor/lib64/libbar.so;\n");
    // No record has this exact path; the base name is matched within the
    // bitness derived from the query's directory.
    assert_eq!(search_library(&h.libs, "/other/lib64/libbar.so", None), Some(1));
    assert_eq!(search_library(&h.libs, "/other/lib/libbar.so", None), Some(0));
}

#[test]
fn locate_absent_name_returns_none() {
    let h = holder("/vendor/lib/libbar.so;\n");
    assert_eq!(search_library(&h.libs, "libzzz.so", None), None);
}

#[test]
fn locate_first_match_wins_in_file_order() {
    let h = holder("/a/lib64/libx.so;\n/b/lib64/libx.so;\n");
    assert_eq!(search_library(&h.libs, "libx.so", None), Some(0));
}

#[test]
fn closure_counts_shared_dependency_once() {
    let h = holder(
        "/v/lib64/liba.so;libb.so,libc2.so\n/v/lib64/libb.so;libd.so\n/v/lib64/libc2.so;libd.so\n/v/lib64/libd.so;\n",
    );
    let found = h.search(&vec![String::from("liba.so")]);
    assert_eq!(found, vec![0, 1, 2, 3]);
}

#[test]
fn closure_terminates_on_cycle() {
    let h = holder("/v/lib64/liba.so;libb.so\n/v/lib64/libb.so;liba.so\n");
    let found = h.search(&vec![String::from("liba.so")]);
    assert_eq!(found, vec![0, 1]);
}

#[test]
fn closure_of_multiple_queries_is_their_union() {
    let h = holder("/v/lib64/liba.so;\n/v/lib64/libb.so;\n/v/lib64/libc2.so;\n");
    let found = h.search(&vec![String::from("libc2.so"), String::from("liba.so")]);
    assert_eq!(found, vec![0, 2]);
}

#[test]
fn closure_skips_unresolvable_query() {
    let h = holder("/v/lib64/liba.so;\n");
    let found = h.search(&vec![String::from("libmissing.so")]);
    assert!(found.is_empty());
}

#[test]
fn sort_orders_indices_by_path() {
    let h = holder("/v/lib64/libz.so;\n/v/lib64/liba.so;\n/v/lib/liba.so;\n");
    let sorted = sort_by_path(&h.libs, &vec![0, 1, 2]);
    assert_eq!(
        paths_of(&h, &sorted),
        vec![
            String::from("/v/lib/liba.so"),
            String::from("/v/lib64/liba.so"),
            String::from("/v/lib64/libz.so"),
        ]
    );
}

#[test]
fn classify_present_path_mismatch_and_missing() {
    let existing = vec![String::from("/vendor/lib64/libbar.so")];
    assert!(matches!(classify("/vendor/lib64/libbar.so", "libbar.so", &existing), LibClass::Present));
    let mismatch = classify("/vendor/lib/libbar.so", "libbar.so", &existing);
    match mismatch {
        LibClass::PathMismatch(k) => assert_eq!(existing[k], "/vendor/lib64/libbar.so"),
        _ => panic!("expected a path mismatch"),
    }
    assert!(matches!(classify("/vendor/lib64/libqux.so", "libqux.so", &existing), LibClass::Missing));
}

#[test]
fn scenario_present_and_missing() {
    let h = holder(
        "/vendor/lib64/libfoo.so;libbar.so>/vendor/lib64/libbar.so\n/vendor/lib64/libbar.so;\n",
    );
    let existing = vec![String::from("/vendor/lib64/libbar.so")];
    let found = h.search(&vec![String::from("libfoo.so")]);
    assert_eq!(found.len(), 2);
    let sorted = sort_by_path(&h.libs, &found);
    assert_eq!(
        paths_of(&h, &sorted),
        vec![
            String::from("/vendor/lib64/libbar.so"),
            String::from("/vendor/lib64/libfoo.so"),
        ]
    );
    let classes = classify_all(&h.libs, &sorted, &existing);
    assert!(matches!(classes[0], LibClass::Present));
    assert!(matches!(classes[1], LibClass::Missing));
}

#[test]
fn scenario_path_mismatch_surfaces_alternate() {
    let h = holder(
        "/vendor/lib64/libfoo.so;libbar.so>/vendor/lib64/libbar.so\n/vendor/lib64/libbar.so;\n",
    );
    let existing = vec![String::from("/vendor/lib/libbar.so")];
    let found = h.search(&vec![String::from("libfoo.so")]);
    let sorted = sort_by_path(&h.libs, &found);
    let classes = classify_all(&h.libs, &sorted, &existing);
    // sorted[0] is libbar.so: present only under its 32-bit path.
    match classes[0] {
        LibClass::PathMismatch(k) => assert_eq!(existing[k], "/vendor/lib/libbar.so"),
        _ => panic!("expected a path mismatch"),
    }
    assert!(matches!(classes[1], LibClass::Missing));
}

#[test]
fn scenario_absent_query_is_silently_skipped() {
    let h = holder(
        "/vendor/lib64/libfoo.so;libbar.so>/vendor/lib64/libbar.so\n/vendor/lib64/libbar.so;\n",
    );
    let found = h.search(&vec![String::from("libnothere.so")]);
    assert!(found.is_empty());
    let classes = classify_all(&h.libs, &found, &vec![String::from("/vendor/lib64/libbar.so")]);
    assert!(classes.is_empty());
}

#[test]
fn libraries_are_equal_iff_paths_are_equal() {
    let a = Library::new(String::from("/v/lib64/liba.so"), Vec::new());
    let b = Library::new(
        String::from("/v/lib64/liba.so"),
        vec![DefinedDependency::new(String::from("libx.so"), String::from("libx.so"))],
    );
    let c = Library::new(String::from("/v/lib/liba.so"), Vec::new());
    assert!(a == b);
    assert!(a != c);
}

#[test]
fn string_helpers_behave() {
    assert!(libdeps::strutil::str_eq("abc", "abc"));
    assert!(!libdeps::strutil::str_eq("abc", "abd"));
    assert!(libdeps::strutil::contains_substr("/vendor/lib64", "lib64"));
    assert!(!libdeps::strutil::contains_substr("/vendor/lib", "lib64"));
    assert!(libdeps::strutil::str_lt("/a/b", "/a/c"));
    assert!(libdeps::strutil::str_lt("/a", "/a/b"));
    assert!(!libdeps::strutil::str_lt("/a/b", "/a/b"));
    assert_eq!(libdeps::strutil::find_char("a>b>c", '>'), Some(1));
    assert_eq!(libdeps::strutil::rfind_char("a>b>c", '>'), Some(3));
    assert_eq!(libdeps::strutil::find_char("abc", '>'), None);
}
