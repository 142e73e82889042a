use binding_merge::directory::{Fragment, LiveDir};
use binding_merge::indent::copy_indent;
use binding_merge::merge::{merge_all, merge_module, Layout, MergeError, Merged};
use binding_merge::naming::{is_fragment, is_type_file};

fn frag(name: &str, data: &str) -> Fragment {
    Fragment { name: name.as_bytes().to_vec(), data: data.as_bytes().to_vec() }
}

fn layout() -> Layout {
    Layout {
        sys_suffix: b".sys.rs".to_vec(),
        ref_open: b"ref(\"".to_vec(),
        ref_close: b".rs\");\n".to_vec(),
    }
}

fn empty_out() -> Merged {
    Merged {
        hub: Vec::new(),
        types: b"\n".to_vec(),
        sys: Vec::new(),
        bodies: Vec::new(),
        native_types: Vec::new(),
        consumed: Vec::new(),
    }
}

#[test]
fn indent_empty_input() {
    let mut out = Vec::new();
    copy_indent(b"", &mut out, b"\t");
    assert!(out.is_empty());
}

#[test]
fn indent_without_trailing_newline() {
    let mut out = Vec::new();
    copy_indent(b"a\nb", &mut out, b"\t");
    assert_eq!(out, b"\ta\n\tb".to_vec());
}

#[test]
fn indent_with_trailing_newline() {
    let mut out = b"x".to_vec();
    copy_indent(b"a\n\nb\n", &mut out, b"  ");
    assert_eq!(out, b"x  a\n  \n  b\n".to_vec());
}

#[test]
fn type_file_prefix_modules_do_not_collide() {
    assert!(is_type_file(b"001-core-a.type.rs", b"core"));
    assert!(!is_type_file(b"001-core2-a.type.rs", b"core"));
    assert!(!is_type_file(b"001-core-a.type.rs", b"core2"));
    assert!(is_type_file(b"001-core2-a.type.rs", b"core2"));
}

#[test]
fn type_file_needs_digits_and_marker() {
    assert!(!is_type_file(b"01-core-a.type.rs", b"core"));
    assert!(!is_type_file(b"0a1-core-a.type.rs", b"core"));
    assert!(!is_type_file(b"001-core-a.rs", b"core"));
    assert!(!is_type_file(b"core.rs", b"core"));
    assert!(is_fragment(b"001-core-a.type.cpp", b"core", b"cpp"));
    assert!(!is_fragment(b"001-core-a.type.cpp", b"core", b"rs"));
}

#[test]
fn type_fragments_merge_in_name_order() {
    let frags = vec![
        frag("003-core-a.type.rs", "C\n"),
        frag("core.rs", "body\n"),
        frag("001-core-b.type.rs", "A\n"),
        frag("core.sys.rs", "s\n"),
        frag("002-core-c.type.rs", "B\n"),
        frag("other.dll", "x"),
    ];
    let mut ld = LiveDir::new(&frags);
    let mut out = empty_out();
    let r = merge_module(&frags, &mut ld, &mut out, b"core", 0, &vec![], &layout());
    assert_eq!(r, Ok(()));
    let types = String::from_utf8(out.types.clone()).unwrap();
    assert_eq!(
        types,
        "\n#[cfg(ocvrs_has_module_core)]\nmod core_types {\n\tuse crate::{mod_prelude::*, core, types, sys};\n\n\tA\n\tB\n\tC\n}\n#[cfg(ocvrs_has_module_core)]\npub use core_types::*;\n\n"
    );
    assert_eq!(
        String::from_utf8(out.bodies[0].clone()).unwrap(),
        "pub mod core {\n\tbody\n}\n"
    );
    assert_eq!(
        String::from_utf8(out.hub.clone()).unwrap(),
        "#[cfg(ocvrs_has_module_core)]\nref(\"core.rs\");\n"
    );
    assert_eq!(
        String::from_utf8(out.sys.clone()).unwrap(),
        "#[cfg(ocvrs_has_module_core)]\nmod core_sys {\n\tuse super::*;\n\n\ts\n}\n#[cfg(ocvrs_has_module_core)]\npub use core_sys::*;\n\n"
    );
    assert_eq!(out.native_types, vec![None]);
    let flags = ld.consumed_flags(&frags);
    assert_eq!(flags, vec![true, true, true, true, true, false]);
}

#[test]
fn empty_type_fragments_give_no_block() {
    let frags = vec![
        frag("core.rs", "body\n"),
        frag("001-core-b.type.rs", ""),
        frag("core.sys.rs", "s\n"),
    ];
    let mut ld = LiveDir::new(&frags);
    let mut out = empty_out();
    let r = merge_module(&frags, &mut ld, &mut out, b"core", 0, &vec![], &layout());
    assert_eq!(r, Ok(()));
    assert_eq!(out.types, b"\n".to_vec());
}

#[test]
fn missing_sys_fragment_is_an_error() {
    let frags = vec![frag("core.rs", "body\n")];
    let mut ld = LiveDir::new(&frags);
    let mut out = empty_out();
    let r = merge_module(&frags, &mut ld, &mut out, b"core", 3, &vec![], &layout());
    assert_eq!(r, Err(MergeError::MissingSys(3)));
}

#[test]
fn missing_body_fragment_is_an_error() {
    let frags = vec![frag("core.sys.rs", "s\n")];
    let mut ld = LiveDir::new(&frags);
    let mut out = empty_out();
    let r = merge_module(&frags, &mut ld, &mut out, b"core", 1, &vec![], &layout());
    assert_eq!(r, Err(MergeError::MissingBody(1)));
}

#[test]
fn override_follows_generated_body() {
    let frags = vec![frag("foo.rs", "x\n"), frag("foo.sys.rs", "")];
    let mut ld = LiveDir::new(&frags);
    let mut out = empty_out();
    let r = merge_module(&frags, &mut ld, &mut out, b"foo", 0, &vec![b"foo".to_vec()], &layout());
    assert_eq!(r, Ok(()));
    assert_eq!(
        String::from_utf8(out.bodies[0].clone()).unwrap(),
        "pub mod foo {\n\tx\npub use crate::manual::foo::*;\n}\n"
    );
}

#[test]
fn native_fragments_concatenate_in_order() {
    let frags = vec![
        frag("002-core-b.type.cpp", "B"),
        frag("core.cpp", "main"),
        frag("001-core-a.type.cpp", "A"),
        frag("core.rs", ""),
        frag("core.sys.rs", ""),
    ];
    let mut ld = LiveDir::new(&frags);
    let mut out = empty_out();
    let r = merge_module(&frags, &mut ld, &mut out, b"core", 0, &vec![], &layout());
    assert_eq!(r, Ok(()));
    assert_eq!(out.native_types, vec![Some(b"AB".to_vec())]);
}

#[test]
fn type_file_stem_must_be_utf8() {
    assert!(!is_type_file(b"001-core-\xff.type.rs", b"core"));
    assert!(is_type_file("001-core-\u{e9}.type.rs".as_bytes(), b"core"));
    assert!(!is_type_file(b"", b"core"));
}

fn full_listing(order: &[usize]) -> Vec<Fragment> {
    let all = [
        frag("003-core-a.type.rs", "C\n"),
        frag("core.rs", "body\n"),
        frag("001-core-b.type.rs", "A\n"),
        frag("core.sys.rs", "s\n"),
        frag("002-core-c.type.rs", "B\n"),
        frag("img.rs", "i\n"),
        frag("img.sys.rs", ""),
        frag("lib.dll", "x"),
    ];
    order.iter().map(|&i| Fragment { name: all[i].name.clone(), data: all[i].data.clone() }).collect()
}

#[test]
fn merge_all_writes_every_file() {
    let frags = full_listing(&[0, 1, 2, 3, 4, 5, 6, 7]);
    let modules = vec![b"core".to_vec(), b"img".to_vec()];
    let out = merge_all(&modules, &frags, &vec![b"types".to_vec()], &layout()).unwrap();
    assert_eq!(
        String::from_utf8(out.hub.clone()).unwrap(),
        "#[cfg(ocvrs_has_module_core)]\nref(\"core.rs\");\n#[cfg(ocvrs_has_module_img)]\nref(\"img.rs\");\npub mod types {\nref(\"types.rs\");\n}\n#[doc(hidden)]\npub mod sys {\nref(\"sys.rs\");\n}\npub mod hub_prelude {\n\t#[cfg(ocvrs_has_module_core)]\n\tpub use super::core::prelude::*;\n\t#[cfg(ocvrs_has_module_img)]\n\tpub use super::img::prelude::*;\n}\n"
    );
    let types = String::from_utf8(out.types.clone()).unwrap();
    assert!(types.contains("\tA\n\tB\n\tC\n"));
    assert!(!types.contains("img_types"));
    assert!(types.ends_with("pub use crate::manual::types::*;\n"));
    let sys = String::from_utf8(out.sys.clone()).unwrap();
    assert!(sys.starts_with("use crate::{mod_prelude_sys::*, core};\n\n"));
    assert!(sys.contains("mod img_sys {"));
    assert_eq!(out.bodies.len(), 2);
    assert_eq!(out.consumed, vec![true, true, true, true, true, true, true, false]);
}

#[test]
fn merge_all_ignores_listing_order() {
    let modules = vec![b"core".to_vec(), b"img".to_vec()];
    let a = merge_all(&modules, &full_listing(&[0, 1, 2, 3, 4, 5, 6, 7]), &vec![], &layout()).unwrap();
    let b = merge_all(&modules, &full_listing(&[7, 6, 4, 2, 0, 5, 3, 1]), &vec![], &layout()).unwrap();
    assert_eq!(a.hub, b.hub);
    assert_eq!(a.types, b.types);
    assert_eq!(a.sys, b.sys);
    assert_eq!(a.bodies, b.bodies);
}

#[test]
fn merge_all_fails_without_sys_fragment() {
    let frags = full_listing(&[0, 1, 2, 3, 4, 5]);
    let modules = vec![b"core".to_vec(), b"img".to_vec()];
    let r = merge_all(&modules, &frags, &vec![], &layout());
    assert!(matches!(r, Err(MergeError::MissingSys(1))));
}
