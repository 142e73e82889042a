//! The merge of per-module fragments into the consolidated files: the hub,
//! the shared types and sys files, one body file per module, and the native
//! type headers.
use vstd::prelude::*;
use vstd::string::StringSliceAdditionalSpecFns;
use crate::directory::{
    bytes_eq, copy_bytes, joined, lemma_remove_names, listing_dir, remove_names, Fragment,
    LiveDir, distinct_names, lemma_listing_dir,
};
use crate::indent::{append_bytes, copy_indent, indented};
use crate::naming::{is_fragment, is_fragment_of};
use crate::order::{in_order, lemma_in_order, sort_names, views};

verus! {

/// The bytes of a piece of text.
pub open spec fn text(s: &str) -> Seq<u8> {
    s.spec_bytes()
}

/// One level of indentation.
pub open spec fn tab() -> Seq<u8> {
    text("\t")
}

/// How the files around the merge are named and referred to.
pub struct Layout {
    /// Suffix that, after the module name, names a module's sys fragment.
    pub sys_suffix: Vec<u8>,
    /// Text before the name in the hub line that pulls in a consolidated file.
    pub ref_open: Vec<u8>,
    /// Text after the name in that line, ending with its newline.
    pub ref_close: Vec<u8>,
}

/// Why a merge stops: the fragment that the module at this index must have
/// is not in the directory.
#[derive(PartialEq, Eq, Structural, Clone, Copy, Debug)]
pub enum MergeError {
    MissingBody(usize),
    MissingSys(usize),
}

/// The consolidated files as a merge has them so far, and the files of the
/// directory that it has not consumed.
pub struct Consolidated {
    pub hub: Seq<u8>,
    pub types: Seq<u8>,
    pub sys: Seq<u8>,
    pub bodies: Seq<Seq<u8>>,
    pub native: Seq<Option<Seq<u8>>>,
    pub rest: Map<Seq<u8>, Seq<u8>>,
}

/// The line that makes what follows depend on `m` being configured.
pub open spec fn guard(m: Seq<u8>) -> Seq<u8> {
    text("#[cfg(ocvrs_has_module_") + m + text(")]\n")
}

/// The hub line that pulls in the consolidated file named after `m`.
pub open spec fn hub_ref(layout: Layout, m: Seq<u8>) -> Seq<u8> {
    layout.ref_open@ + m + layout.ref_close@
}

/// The wildcard re-export of the manual override named `m`.
pub open spec fn manual_line(m: Seq<u8>) -> Seq<u8> {
    text("pub use crate::manual::") + m + text("::*;\n")
}

/// `manual_line(m)` where an override named `m` exists, else nothing.
pub open spec fn manual_opt(manual: Set<Seq<u8>>, m: Seq<u8>) -> Seq<u8> {
    if manual.contains(m) {
        manual_line(m)
    } else {
        seq![]
    }
}

/// A module's body file: the generated body, one level in, inside
/// `pub mod <m> { }`, followed by the override's re-export where one exists.
pub open spec fn body_file(m: Seq<u8>, body: Seq<u8>, has_manual: bool) -> Seq<u8> {
    text("pub mod ") + m + text(" {\n") + indented(body, tab()) + (if has_manual {
        manual_line(m)
    } else {
        seq![]
    }) + text("}\n")
}

/// The names in `dir` of the type fragments of `m` with extension `ext`.
pub open spec fn fragments_of(dir: Map<Seq<u8>, Seq<u8>>, m: Seq<u8>, ext: Seq<u8>) -> Set<
    Seq<u8>,
> {
    dir.dom().filter(|n: Seq<u8>| is_fragment_of(n, m, ext))
}

/// The contents of the files `names`, one after the other.
pub open spec fn concat_data(names: Seq<Seq<u8>>, dir: Map<Seq<u8>, Seq<u8>>) -> Seq<u8>
    decreases names.len(),
{
    if names.len() == 0 {
        seq![]
    } else {
        concat_data(names.drop_last(), dir) + dir[names.last()]
    }
}

/// The contents of the files `names`, each one level in, one after the other.
pub open spec fn concat_indented(names: Seq<Seq<u8>>, dir: Map<Seq<u8>, Seq<u8>>) -> Seq<u8>
    decreases names.len(),
{
    if names.len() == 0 {
        seq![]
    } else {
        concat_indented(names.drop_last(), dir) + indented(dir[names.last()], tab())
    }
}

/// One of the files `names` is not empty.
pub open spec fn any_nonempty(names: Seq<Seq<u8>>, dir: Map<Seq<u8>, Seq<u8>>) -> bool {
    exists|k: int| 0 <= k < names.len() && dir[#[trigger] names[k]].len() > 0
}

/// The opening of a module's block in the types file.
pub open spec fn types_open(m: Seq<u8>) -> Seq<u8> {
    guard(m) + (text("mod ") + m + text("_types {\n")) + text(
        "\tuse crate::{mod_prelude::*, core, types, sys};\n\n",
    )
}

/// The closing of a module's block in the types file, with its re-export.
pub open spec fn types_close(m: Seq<u8>) -> Seq<u8> {
    text("}\n") + guard(m) + (text("pub use ") + m + text("_types::*;\n\n"))
}

/// The block of the shared types file for module `m`, whose type fragments
/// are `names` in order: nothing when all of them are empty.
pub open spec fn types_block(m: Seq<u8>, names: Seq<Seq<u8>>, dir: Map<Seq<u8>, Seq<u8>>) -> Seq<
    u8,
> {
    if any_nonempty(names, dir) {
        types_open(m) + concat_indented(names, dir) + types_close(m)
    } else {
        seq![]
    }
}

/// The opening of a module's block in the sys file.
pub open spec fn sys_open(m: Seq<u8>) -> Seq<u8> {
    guard(m) + (text("mod ") + m + text("_sys {\n\tuse super::*;\n\n"))
}

/// The closing of a module's block in the sys file, with its re-export.
pub open spec fn sys_close(m: Seq<u8>) -> Seq<u8> {
    text("}\n") + guard(m) + (text("pub use ") + m + text("_sys::*;\n\n"))
}

/// The block of the shared sys file for module `m`, whose sys fragment holds
/// `data`.
pub open spec fn sys_block(m: Seq<u8>, data: Seq<u8>) -> Seq<u8> {
    sys_open(m) + indented(data, tab()) + sys_close(m)
}

/// Merges module `m`, the one at index `i`: its native type fragments where
/// it has a combined native source, its hub entry, its body file, its block
/// of the types file and its block of the sys file, consuming each fragment
/// it reads.
#[verifier::opaque]
pub open spec fn merge_step(
    st: Consolidated,
    m: Seq<u8>,
    i: int,
    manual: Set<Seq<u8>>,
    layout: Layout,
) -> Result<Consolidated, MergeError> {
    let cpp_names = in_order(fragments_of(st.rest, m, text("cpp")));
    let has_cpp = st.rest.contains_key(m + text(".cpp"));
    let dir1 = if has_cpp {
        remove_names(st.rest, cpp_names)
    } else {
        st.rest
    };
    let native = if has_cpp {
        Some(concat_data(cpp_names, st.rest))
    } else {
        None
    };
    let body_name = m + text(".rs");
    if !dir1.contains_key(body_name) {
        Err(MergeError::MissingBody(i as usize))
    } else {
        let dir2 = dir1.remove(body_name);
        let type_names = in_order(fragments_of(dir2, m, text("rs")));
        let dir3 = remove_names(dir2, type_names);
        let sys_name = m + layout.sys_suffix@;
        if !dir3.contains_key(sys_name) {
            Err(MergeError::MissingSys(i as usize))
        } else {
            Ok(
                Consolidated {
                    hub: st.hub + guard(m) + hub_ref(layout, m),
                    types: st.types + types_block(m, type_names, dir2),
                    sys: st.sys + sys_block(m, dir3[sys_name]),
                    bodies: st.bodies.push(body_file(m, dir1[body_name], manual.contains(m))),
                    native: st.native.push(native),
                    rest: dir3.remove(sys_name),
                },
            )
        }
    }
}

/// The hub's re-export of every module's prelude, each under its guard.
pub open spec fn prelude_lines(modules: Seq<Seq<u8>>) -> Seq<u8>
    decreases modules.len(),
{
    if modules.len() == 0 {
        seq![]
    } else {
        let m = modules.last();
        prelude_lines(modules.drop_last()) + tab() + guard(m) + text("\tpub use super::") + m
            + text("::prelude::*;\n")
    }
}

/// The state before any module is merged.
pub open spec fn initial(dir: Map<Seq<u8>, Seq<u8>>) -> Consolidated {
    Consolidated {
        hub: seq![],
        types: text("\n"),
        sys: text("use crate::{mod_prelude_sys::*, core};\n\n"),
        bodies: seq![],
        native: seq![],
        rest: dir,
    }
}

/// The state after merging the first `n` modules, in order; the first
/// module that fails stops the merge.
pub open spec fn merge_prefix(
    modules: Seq<Seq<u8>>,
    n: nat,
    dir: Map<Seq<u8>, Seq<u8>>,
    manual: Set<Seq<u8>>,
    layout: Layout,
) -> Result<Consolidated, MergeError>
    decreases n,
{
    if n == 0 {
        Ok(initial(dir))
    } else {
        match merge_prefix(modules, (n - 1) as nat, dir, manual, layout) {
            Ok(st) => merge_step(st, modules[n - 1], n - 1, manual, layout),
            Err(e) => Err(e),
        }
    }
}

/// What follows the modules: the hub's types and sys modules and its
/// combined prelude, and the overrides of the types and sys files.
pub open spec fn finish(
    st: Consolidated,
    modules: Seq<Seq<u8>>,
    manual: Set<Seq<u8>>,
    layout: Layout,
) -> Consolidated {
    Consolidated {
        hub: st.hub + (text("pub mod types {\n") + hub_ref(layout, text("types")) + text(
            "}\n#[doc(hidden)]\npub mod sys {\n",
        ) + hub_ref(layout, text("sys")) + text("}\npub mod hub_prelude {\n") + prelude_lines(
            modules,
        ) + text("}\n")),
        types: st.types + manual_opt(manual, text("types")),
        sys: st.sys + manual_opt(manual, text("sys")),
        ..st
    }
}

/// The whole merge of `modules`, in order, over the directory `dir`.
pub open spec fn merged(
    modules: Seq<Seq<u8>>,
    dir: Map<Seq<u8>, Seq<u8>>,
    manual: Set<Seq<u8>>,
    layout: Layout,
) -> Result<Consolidated, MergeError> {
    match merge_prefix(modules, modules.len(), dir, manual, layout) {
        Ok(st) => Ok(finish(st, modules, manual, layout)),
        Err(e) => Err(e),
    }
}

/// The consolidated files of a merge, and which files of the listing it
/// consumed.
pub struct Merged {
    /// The hub: one guarded entry per module, then the types and sys modules
    /// and the combined prelude.
    pub hub: Vec<u8>,
    /// The shared types file.
    pub types: Vec<u8>,
    /// The shared sys file.
    pub sys: Vec<u8>,
    /// One body file per module, in module order.
    pub bodies: Vec<Vec<u8>>,
    /// Per module, the merged native type header, where the module has a
    /// combined native source.
    pub native_types: Vec<Option<Vec<u8>>>,
    /// Per file of the listing, whether the merge consumed it; `merge_all`
    /// fills it, `merge_module` leaves it as it is.
    pub consumed: Vec<bool>,
}

/// The views of a sequence of optional byte vectors.
pub open spec fn opt_views(s: Seq<Option<Vec<u8>>>) -> Seq<Option<Seq<u8>>> {
    s.map_values(
        |o: Option<Vec<u8>>|
            match o {
                Some(v) => Some(v@),
                None => None,
            },
    )
}

impl Merged {
    /// The consolidated files agree with `c`, and the files consumed are
    /// those of `frags` that `c` no longer holds.
    pub open spec fn agrees(&self, c: Consolidated, frags: Seq<Fragment>) -> bool {
        &&& self.model(c.rest) == c
        &&& self.consumed@.len() == frags.len()
        &&& forall|i: int|
            0 <= i < frags.len() ==> self.consumed@[i] == !c.rest.contains_key(
                #[trigger] frags[i].name@,
            )
    }

    /// The files so far, with `rest` as the unconsumed directory.
    pub open spec fn model(&self, rest: Map<Seq<u8>, Seq<u8>>) -> Consolidated {
        Consolidated {
            hub: self.hub@,
            types: self.types@,
            sys: self.sys@,
            bodies: views(self.bodies@),
            native: opt_views(self.native_types@),
            rest,
        }
    }
}

/// Appends `a`, then `m`, then `b`.
fn push3(out: &mut Vec<u8>, a: &str, m: &[u8], b: &str)
    ensures
        final(out)@ == old(out)@ + (text(a) + m@ + text(b)),
{
    append_bytes(out, a.as_bytes());
    append_bytes(out, m);
    append_bytes(out, b.as_bytes());
    assert(final(out)@ =~= old(out)@ + (text(a) + m@ + text(b)));
}

/// Appends the guard of `m`.
fn push_guard(out: &mut Vec<u8>, m: &[u8])
    ensures
        final(out)@ == old(out)@ + guard(m@),
{
    push3(out, "#[cfg(ocvrs_has_module_", m, ")]\n");
}

/// Appends the hub line that pulls in the file named after `m`.
fn push_ref(out: &mut Vec<u8>, layout: &Layout, m: &[u8])
    ensures
        final(out)@ == old(out)@ + hub_ref(*layout, m@),
{
    append_bytes(out, layout.ref_open.as_slice());
    append_bytes(out, m);
    append_bytes(out, layout.ref_close.as_slice());
    assert(final(out)@ =~= old(out)@ + hub_ref(*layout, m@));
}

/// Appends the opening of `m`'s block in the types file.
fn push_types_open(out: &mut Vec<u8>, m: &[u8])
    ensures
        final(out)@ == old(out)@ + types_open(m@),
{
    let ghost o = out@;
    push_guard(out, m);
    push3(out, "mod ", m, "_types {\n");
    append_bytes(out, "\tuse crate::{mod_prelude::*, core, types, sys};\n\n".as_bytes());
    assert(final(out)@ =~= o + types_open(m@));
}

/// Appends the closing of `m`'s block in the types file.
fn push_types_close(out: &mut Vec<u8>, m: &[u8])
    ensures
        final(out)@ == old(out)@ + types_close(m@),
{
    let ghost o = out@;
    append_bytes(out, "}\n".as_bytes());
    push_guard(out, m);
    push3(out, "pub use ", m, "_types::*;\n\n");
    assert(final(out)@ =~= o + types_close(m@));
}

/// Appends the closing of `m`'s block in the sys file.
fn push_sys_close(out: &mut Vec<u8>, m: &[u8])
    ensures
        final(out)@ == old(out)@ + sys_close(m@),
{
    let ghost o = out@;
    append_bytes(out, "}\n".as_bytes());
    push_guard(out, m);
    push3(out, "pub use ", m, "_sys::*;\n\n");
    assert(final(out)@ =~= o + sys_close(m@));
}

/// Decides whether an override named `m` exists.
fn has_manual(manual: &Vec<Vec<u8>>, m: &[u8]) -> (r: bool)
    ensures
        r == views(manual@).to_set().contains(m@),
{
    let mut i: usize = 0;
    while i < manual.len()
        invariant
            i <= manual@.len(),
            forall|k: int| 0 <= k < i ==> manual@[k]@ != m@,
        decreases manual@.len() - i,
    {
        if bytes_eq(manual[i].as_slice(), m) {
            assert(views(manual@)[i as int] == m@);
            return true;
        }
        i = i + 1;
    }
    assert(!views(manual@).contains(m@)) by {
        if views(manual@).contains(m@) {
            let k = choose|k: int| 0 <= k < views(manual@).len() && views(manual@)[k] == m@;
            assert(manual@[k]@ == m@);
        }
    }
    false
}

/// The names of the live type fragments of `m` with extension `ext`.
fn gather_names(frags: &Vec<Fragment>, ld: &LiveDir, m: &[u8], ext: &[u8]) -> (r: Vec<Vec<u8>>)
    requires
        ld.inv(frags@),
    ensures
        views(r@).no_duplicates(),
        views(r@).to_set() == fragments_of(ld.dir@, m@, ext@),
{
    let mut r: Vec<Vec<u8>> = Vec::new();
    let ghost mut idx: Seq<int> = seq![];
    let mut i: usize = 0;
    while i < frags.len()
        invariant
            ld.inv(frags@),
            i <= frags@.len(),
            idx.len() == r@.len(),
            forall|k: int|
                0 <= k < idx.len() ==> 0 <= #[trigger] idx[k] < i && r@[k]@ == frags@[idx[k]].name@
                    && ld.live@[idx[k]] && is_fragment_of(frags@[idx[k]].name@, m@, ext@),
            forall|k1: int, k2: int| 0 <= k1 < k2 < idx.len() ==> idx[k1] < idx[k2],
            forall|j: int|
                0 <= j < i && ld.live@[j] && is_fragment_of(frags@[j].name@, m@, ext@) ==> exists|
                    k: int,
                | 0 <= k < idx.len() && idx[k] == j,
        decreases frags@.len() - i,
    {
        let ghost idx0 = idx;
        if ld.live[i] && is_fragment(frags[i].name.as_slice(), m, ext) {
            r.push(copy_bytes(frags[i].name.as_slice()));
            proof {
                let k = idx.len() as int;
                idx = idx.push(i as int);
                assert(idx[k] == i);
            }
        }
        proof {
            assert forall|j: int|
                0 <= j < i + 1 && ld.live@[j] && is_fragment_of(frags@[j].name@, m@, ext@) implies exists|
                    k: int,
                | 0 <= k < idx.len() && idx[k] == j by {
                if j < i {
                    let k = choose|k: int| 0 <= k < idx0.len() && idx0[k] == j;
                    assert(idx[k] == idx0[k]);
                } else {
                    assert(idx[idx.len() - 1] == j);
                }
            }
        }
        i = i + 1;
    }
    let ghost v = views(r@);
    assert(v.no_duplicates()) by {
        assert forall|a: int, b: int| 0 <= a < v.len() && 0 <= b < v.len() && a != b implies v[a]
            != v[b] by {
            assert(idx[a] != idx[b]) by {
                if a < b {
                    assert(idx[a] < idx[b]);
                } else {
                    assert(idx[b] < idx[a]);
                }
            }
            assert(v[a] == frags@[idx[a]].name@);
            assert(v[b] == frags@[idx[b]].name@);
        }
    }
    assert(v.to_set() =~= fragments_of(ld.dir@, m@, ext@)) by {
        assert forall|n: Seq<u8>| v.to_set().contains(n) implies fragments_of(
            ld.dir@,
            m@,
            ext@,
        ).contains(n) by {
            let k = choose|k: int| 0 <= k < v.len() && v[k] == n;
            assert(idx[k] >= 0);
            assert(frags@[idx[k]].name@ == n);
        }
        assert forall|n: Seq<u8>| fragments_of(ld.dir@, m@, ext@).contains(n) implies v.to_set().contains(
            n,
        ) by {
            let j = choose|j: int| 0 <= j < frags@.len() && ld.live@[j] && #[trigger] frags@[j].name@ == n;
            let k = choose|k: int| 0 <= k < idx.len() && idx[k] == j;
            assert(v[k] == n);
        }
    }
    r
}

/// Appends the contents of the files `names`, in order, and consumes them.
fn take_concat(
    frags: &Vec<Fragment>,
    ld: &mut LiveDir,
    names: &Vec<Vec<u8>>,
    out: &mut Vec<u8>,
)
    requires
        old(ld).inv(frags@),
        views(names@).no_duplicates(),
        forall|k: int| 0 <= k < names@.len() ==> old(ld).dir@.contains_key(#[trigger] names@[k]@),
    ensures
        final(ld).inv(frags@),
        final(ld).dir@ == remove_names(old(ld).dir@, views(names@)),
        final(out)@ == old(out)@ + concat_data(views(names@), old(ld).dir@),
{
    let ghost d0 = ld.dir@;
    let ghost vn = views(names@);
    let mut k: usize = 0;
    assert(vn.subrange(0, 0) =~= Seq::<Seq<u8>>::empty());
    assert(out@ =~= old(out)@ + concat_data(vn.subrange(0, 0), d0));
    while k < names.len()
        invariant
            ld.inv(frags@),
            k <= names@.len(),
            vn == views(names@),
            vn.no_duplicates(),
            forall|j: int| 0 <= j < names@.len() ==> d0.contains_key(#[trigger] names@[j]@),
            ld.dir@ == remove_names(d0, vn.subrange(0, k as int)),
            out@ == old(out)@ + concat_data(vn.subrange(0, k as int), d0),
        decreases names@.len() - k,
    {
        let ghost pre = vn.subrange(0, k as int);
        let ghost next = vn.subrange(0, k + 1);
        proof {
            assert(vn[k as int] == names@[k as int]@);
            assert(!pre.contains(vn[k as int])) by {
                if pre.contains(vn[k as int]) {
                    let j = choose|j: int| 0 <= j < pre.len() && pre[j] == vn[k as int];
                    assert(vn[j] == vn[k as int]);
                }
            }
            lemma_remove_names(d0, pre, vn[k as int]);
            assert(next.drop_last() =~= pre);
        }
        let found = ld.find(frags, names[k].as_slice());
        let i = match found {
            Some(i) => i,
            None => {
                return;
            },
        };
        append_bytes(out, frags[i].data.as_slice());
        ld.consume(frags, i);
        k = k + 1;
        assert(out@ =~= old(out)@ + concat_data(next, d0));
    }
    assert(vn.subrange(0, k as int) =~= vn);
}

/// Appends the contents of the files `names`, each one level in, in order,
/// consumes them, and tells whether one of them was not empty.
fn take_indented(
    frags: &Vec<Fragment>,
    ld: &mut LiveDir,
    names: &Vec<Vec<u8>>,
    out: &mut Vec<u8>,
) -> (any: bool)
    requires
        old(ld).inv(frags@),
        views(names@).no_duplicates(),
        forall|k: int| 0 <= k < names@.len() ==> old(ld).dir@.contains_key(#[trigger] names@[k]@),
    ensures
        final(ld).inv(frags@),
        final(ld).dir@ == remove_names(old(ld).dir@, views(names@)),
        final(out)@ == old(out)@ + concat_indented(views(names@), old(ld).dir@),
        any == any_nonempty(views(names@), old(ld).dir@),
{
    let ghost d0 = ld.dir@;
    let ghost vn = views(names@);
    let mut any = false;
    let mut k: usize = 0;
    assert(vn.subrange(0, 0) =~= Seq::<Seq<u8>>::empty());
    assert(out@ =~= old(out)@ + concat_indented(vn.subrange(0, 0), d0));
    while k < names.len()
        invariant
            ld.inv(frags@),
            k <= names@.len(),
            vn == views(names@),
            vn.no_duplicates(),
            forall|j: int| 0 <= j < names@.len() ==> d0.contains_key(#[trigger] names@[j]@),
            ld.dir@ == remove_names(d0, vn.subrange(0, k as int)),
            out@ == old(out)@ + concat_indented(vn.subrange(0, k as int), d0),
            any == any_nonempty(vn.subrange(0, k as int), d0),
        decreases names@.len() - k,
    {
        let ghost pre = vn.subrange(0, k as int);
        let ghost next = vn.subrange(0, k + 1);
        proof {
            assert(vn[k as int] == names@[k as int]@);
            assert(!pre.contains(vn[k as int])) by {
                if pre.contains(vn[k as int]) {
                    let j = choose|j: int| 0 <= j < pre.len() && pre[j] == vn[k as int];
                    assert(vn[j] == vn[k as int]);
                }
            }
            lemma_remove_names(d0, pre, vn[k as int]);
            assert(next.drop_last() =~= pre);
        }
        let found = ld.find(frags, names[k].as_slice());
        let i = match found {
            Some(i) => i,
            None => {
                return any;
            },
        };
        if frags[i].data.len() > 0 {
            any = true;
        }
        copy_indent(frags[i].data.as_slice(), out, "\t".as_bytes());
        ld.consume(frags, i);
        proof {
            assert(next[k as int] == vn[k as int]);
            if any_nonempty(next, d0) {
                let j = choose|j: int| 0 <= j < next.len() && d0[#[trigger] next[j]].len() > 0;
                if j < k {
                    assert(pre[j] == next[j]);
                }
            }
            if any_nonempty(pre, d0) {
                let j = choose|j: int| 0 <= j < pre.len() && d0[#[trigger] pre[j]].len() > 0;
                assert(next[j] == pre[j]);
            }
        }
        k = k + 1;
        assert(out@ =~= old(out)@ + concat_indented(next, d0));
    }
    assert(vn.subrange(0, k as int) =~= vn);
    any
}

/// The native type fragments of `m`, concatenated and consumed, where the
/// module has a combined native source.
fn native_step(frags: &Vec<Fragment>, ld: &mut LiveDir, m: &[u8]) -> (r: Option<Vec<u8>>)
    requires
        old(ld).inv(frags@),
    ensures
        final(ld).inv(frags@),
        ({
            let d0 = old(ld).dir@;
            let names = in_order(fragments_of(d0, m@, text("cpp")));
            if d0.contains_key(m@ + text(".cpp")) {
                &&& final(ld).dir@ == remove_names(d0, names)
                &&& r is Some && r->0@ == concat_data(names, d0)
            } else {
                &&& final(ld).dir@ == d0
                &&& r is None
            }
        }),
{
    let ghost d0 = ld.dir@;
    let cpp_name = joined(m, ".cpp".as_bytes());
    if ld.find(frags, cpp_name.as_slice()).is_some() {
        let names = sort_names(gather_names(frags, ld, m, "cpp".as_bytes()));
        proof {
            lemma_in_order(fragments_of(d0, m@, text("cpp")));
            assert forall|k: int| 0 <= k < names@.len() implies d0.contains_key(
                #[trigger] names@[k]@,
            ) by {
                assert(views(names@)[k] == names@[k]@);
            }
        }
        let mut data: Vec<u8> = Vec::new();
        take_concat(frags, ld, &names, &mut data);
        assert(data@ =~= concat_data(in_order(fragments_of(d0, m@, text("cpp"))), d0));
        Some(data)
    } else {
        None
    }
}

/// The body file of `m`, its body fragment consumed; `None` where the
/// module has no body fragment.
fn body_step(
    frags: &Vec<Fragment>,
    ld: &mut LiveDir,
    m: &[u8],
    manual: &Vec<Vec<u8>>,
) -> (r: Option<Vec<u8>>)
    requires
        old(ld).inv(frags@),
    ensures
        final(ld).inv(frags@),
        ({
            let d0 = old(ld).dir@;
            let name = m@ + text(".rs");
            if d0.contains_key(name) {
                &&& final(ld).dir@ == d0.remove(name)
                &&& r is Some
                &&& r->0@ == body_file(m@, d0[name], views(manual@).to_set().contains(m@))
            } else {
                r is None
            }
        }),
{
    let ghost d0 = ld.dir@;
    let body_name = joined(m, ".rs".as_bytes());
    let bi = match ld.find(frags, body_name.as_slice()) {
        Some(bi) => bi,
        None => {
            return None;
        },
    };
    let mut body: Vec<u8> = Vec::new();
    push3(&mut body, "pub mod ", m, " {\n");
    copy_indent(frags[bi].data.as_slice(), &mut body, "\t".as_bytes());
    let with_manual = has_manual(manual, m);
    if with_manual {
        push3(&mut body, "pub use crate::manual::", m, "::*;\n");
    }
    append_bytes(&mut body, "}\n".as_bytes());
    assert(body@ =~= body_file(m@, d0[m@ + text(".rs")], views(manual@).to_set().contains(m@)));
    ld.consume(frags, bi);
    Some(body)
}

/// The block of the types file for `m`, its type fragments consumed.
fn types_step(frags: &Vec<Fragment>, ld: &mut LiveDir, m: &[u8]) -> (r: Vec<u8>)
    requires
        old(ld).inv(frags@),
    ensures
        final(ld).inv(frags@),
        ({
            let d0 = old(ld).dir@;
            let names = in_order(fragments_of(d0, m@, text("rs")));
            &&& final(ld).dir@ == remove_names(d0, names)
            &&& r@ == types_block(m@, names, d0)
        }),
{
    let ghost d0 = ld.dir@;
    let ghost type_names = in_order(fragments_of(d0, m@, text("rs")));
    let tnames = sort_names(gather_names(frags, ld, m, "rs".as_bytes()));
    proof {
        lemma_in_order(fragments_of(d0, m@, text("rs")));
        assert forall|k: int| 0 <= k < tnames@.len() implies d0.contains_key(
            #[trigger] tnames@[k]@,
        ) by {
            assert(views(tnames@)[k] == tnames@[k]@);
        }
    }
    let mut inner: Vec<u8> = Vec::new();
    let any = take_indented(frags, ld, &tnames, &mut inner);
    assert(inner@ =~= concat_indented(type_names, d0));
    let mut blk: Vec<u8> = Vec::new();
    if any {
        push_types_open(&mut blk, m);
        append_bytes(&mut blk, inner.as_slice());
        push_types_close(&mut blk, m);
    }
    assert(blk@ =~= types_block(m@, type_names, d0));
    blk
}

/// The block of the sys file for `m`, its sys fragment consumed; `None`
/// where the module has no sys fragment.
fn sys_step(frags: &Vec<Fragment>, ld: &mut LiveDir, m: &[u8], layout: &Layout) -> (r: Option<
    Vec<u8>,
>)
    requires
        old(ld).inv(frags@),
    ensures
        final(ld).inv(frags@),
        ({
            let d0 = old(ld).dir@;
            let name = m@ + layout.sys_suffix@;
            if d0.contains_key(name) {
                &&& final(ld).dir@ == d0.remove(name)
                &&& r is Some
                &&& r->0@ == sys_block(m@, d0[name])
            } else {
                r is None
            }
        }),
{
    let ghost d0 = ld.dir@;
    let sys_name = joined(m, layout.sys_suffix.as_slice());
    let si = match ld.find(frags, sys_name.as_slice()) {
        Some(si) => si,
        None => {
            return None;
        },
    };
    let mut sblk: Vec<u8> = Vec::new();
    push_guard(&mut sblk, m);
    push3(&mut sblk, "mod ", m, "_sys {\n\tuse super::*;\n\n");
    copy_indent(frags[si].data.as_slice(), &mut sblk, "\t".as_bytes());
    push_sys_close(&mut sblk, m);
    assert(sblk@ =~= sys_block(m@, d0[m@ + layout.sys_suffix@]));
    ld.consume(frags, si);
    Some(sblk)
}

/// Merges module `m`, the one at index `i`, into `out`, consuming its
/// fragments from the live directory.
#[verifier::rlimit(60)]
pub fn merge_module(
    frags: &Vec<Fragment>,
    ld: &mut LiveDir,
    out: &mut Merged,
    m: &[u8],
    i: usize,
    manual: &Vec<Vec<u8>>,
    layout: &Layout,
) -> (r: Result<(), MergeError>)
    requires
        old(ld).inv(frags@),
    ensures
        final(ld).inv(frags@),
        final(out).consumed == old(out).consumed,
        r is Err ==> final(out).sys@ == old(out).sys@,
        match r {
            Ok(()) => merge_step(
                old(out).model(old(ld).dir@),
                m@,
                i as int,
                views(manual@).to_set(),
                *layout,
            ) == Ok::<Consolidated, MergeError>(final(out).model(final(ld).dir@)),
            Err(e) => merge_step(
                old(out).model(old(ld).dir@),
                m@,
                i as int,
                views(manual@).to_set(),
                *layout,
            ) == Err::<Consolidated, MergeError>(e),
        },
{
    reveal(merge_step);
    let native = native_step(frags, ld, m);
    push_guard(&mut out.hub, m);
    push_ref(&mut out.hub, layout, m);
    let body = match body_step(frags, ld, m, manual) {
        Some(b) => b,
        None => {
            return Err(MergeError::MissingBody(i));
        },
    };
    let blk = types_step(frags, ld, m);
    append_bytes(&mut out.types, blk.as_slice());
    let sblk = match sys_step(frags, ld, m, layout) {
        Some(b) => b,
        None => {
            return Err(MergeError::MissingSys(i));
        },
    };
    append_bytes(&mut out.sys, sblk.as_slice());
    let ghost bodies0 = out.bodies@;
    let ghost native0 = out.native_types@;
    let ghost nv = opt_views(seq![native])[0];
    let ghost bv = body@;
    out.bodies.push(body);
    out.native_types.push(native);
    proof {
        assert(views(out.bodies@) =~= views(bodies0).push(bv));
        assert(opt_views(out.native_types@) =~= opt_views(native0).push(nv));
    }
    Ok(())
}

/// Appends the hub's prelude lines of `modules`.
fn push_prelude_lines(out: &mut Vec<u8>, modules: &Vec<Vec<u8>>)
    ensures
        final(out)@ == old(out)@ + prelude_lines(views(modules@)),
{
    let ghost o = out@;
    let ghost vm = views(modules@);
    let mut k: usize = 0;
    assert(vm.subrange(0, 0) =~= Seq::<Seq<u8>>::empty());
    assert(out@ =~= o + prelude_lines(vm.subrange(0, 0)));
    while k < modules.len()
        invariant
            k <= modules@.len(),
            vm == views(modules@),
            out@ == o + prelude_lines(vm.subrange(0, k as int)),
        decreases modules@.len() - k,
    {
        let ghost before = out@;
        let ghost next = vm.subrange(0, k + 1);
        append_bytes(out, "\t".as_bytes());
        push_guard(out, modules[k].as_slice());
        push3(out, "\tpub use super::", modules[k].as_slice(), "::prelude::*;\n");
        assert(next.drop_last() =~= vm.subrange(0, k as int));
        assert(next.last() == modules@[k as int]@);
        k = k + 1;
        assert(out@ =~= o + prelude_lines(next));
    }
    assert(vm.subrange(0, k as int) =~= vm);
}

/// Appends the hub's part after the modules.
pub fn push_hub_tail(out: &mut Vec<u8>, modules: &Vec<Vec<u8>>, layout: &Layout)
    ensures
        final(out)@ == old(out)@ + (text("pub mod types {\n") + hub_ref(*layout, text("types"))
            + text("}\n#[doc(hidden)]\npub mod sys {\n") + hub_ref(*layout, text("sys")) + text(
            "}\npub mod hub_prelude {\n",
        ) + prelude_lines(views(modules@)) + text("}\n")),
{
    let ghost o = out@;
    append_bytes(out, "pub mod types {\n".as_bytes());
    push_ref(out, layout, "types".as_bytes());
    append_bytes(out, "}\n#[doc(hidden)]\npub mod sys {\n".as_bytes());
    push_ref(out, layout, "sys".as_bytes());
    append_bytes(out, "}\npub mod hub_prelude {\n".as_bytes());
    push_prelude_lines(out, modules);
    append_bytes(out, "}\n".as_bytes());
    assert(final(out)@ =~= o + (text("pub mod types {\n") + hub_ref(*layout, text("types"))
        + text("}\n#[doc(hidden)]\npub mod sys {\n") + hub_ref(*layout, text("sys")) + text(
        "}\npub mod hub_prelude {\n",
    ) + prelude_lines(views(modules@)) + text("}\n")));
}

/// Appends the re-export of the override named `m`, where one exists.
pub fn push_manual(out: &mut Vec<u8>, manual: &Vec<Vec<u8>>, m: &str)
    ensures
        final(out)@ == old(out)@ + manual_opt(views(manual@).to_set(), text(m)),
{
    if has_manual(manual, m.as_bytes()) {
        push3(out, "pub use crate::manual::", m.as_bytes(), "::*;\n");
    } else {
        assert(out@ =~= out@ + Seq::<u8>::empty());
    }
}

/// A module none of whose type fragments holds anything has no block in the
/// types file.
pub proof fn lemma_empty_fragments_no_block(
    m: Seq<u8>,
    names: Seq<Seq<u8>>,
    dir: Map<Seq<u8>, Seq<u8>>,
)
    requires
        forall|k: int| 0 <= k < names.len() ==> dir[#[trigger] names[k]].len() == 0,
    ensures
        types_block(m, names, dir) == Seq::<u8>::empty(),
{
}

/// Where an override exists, its re-export follows the generated body of the
/// module's body file, and only the closing brace follows it.
pub proof fn lemma_override_after_body(m: Seq<u8>, body: Seq<u8>)
    ensures
        body_file(m, body, true) == text("pub mod ") + m + text(" {\n") + indented(body, tab())
            + manual_line(m) + text("}\n"),
{
}

/// Once a merge has failed, merging more modules does not change the error.
proof fn lemma_error_stays(
    modules: Seq<Seq<u8>>,
    n: nat,
    k: nat,
    dir: Map<Seq<u8>, Seq<u8>>,
    manual: Set<Seq<u8>>,
    layout: Layout,
)
    requires
        merge_prefix(modules, n, dir, manual, layout) is Err,
        n <= k,
    ensures
        merge_prefix(modules, k, dir, manual, layout) == merge_prefix(
            modules,
            n,
            dir,
            manual,
            layout,
        ),
    decreases k,
{
    if k > n {
        lemma_error_stays(modules, n, (k - 1) as nat, dir, manual, layout);
    }
}

/// Merges the fragments of `modules`, in this order, from the directory
/// listed in `frags`, with the overrides named in `manual`: the whole merge
/// as `merged` states it, with each file of the listing marked consumed or
/// not. It fails, with nothing produced, at the first module in order whose
/// body or sys fragment is missing.
pub fn merge_all(
    modules: &Vec<Vec<u8>>,
    frags: &Vec<Fragment>,
    manual: &Vec<Vec<u8>>,
    layout: &Layout,
) -> (r: Result<Merged, MergeError>)
    requires
        distinct_names(frags@),
    ensures
        match merged(views(modules@), listing_dir(frags@), views(manual@).to_set(), *layout) {
            Ok(c) => r is Ok && r->Ok_0.agrees(c, frags@),
            Err(e) => r == Err::<Merged, MergeError>(e),
        },
{
    let ghost vm = views(modules@);
    let ghost dir = listing_dir(frags@);
    let ghost mset = views(manual@).to_set();
    let mut ld = LiveDir::new(frags);
    let mut out = Merged {
        hub: Vec::new(),
        types: copy_bytes("\n".as_bytes()),
        sys: copy_bytes("use crate::{mod_prelude_sys::*, core};\n\n".as_bytes()),
        bodies: Vec::new(),
        native_types: Vec::new(),
        consumed: Vec::new(),
    };
    proof {
        assert(views(out.bodies@) =~= Seq::<Seq<u8>>::empty());
        assert(opt_views(out.native_types@) =~= Seq::<Option<Seq<u8>>>::empty());
        assert(out.hub@ =~= Seq::<u8>::empty());
        assert(out.model(ld.dir@) == initial(dir));
    }
    let mut i: usize = 0;
    while i < modules.len()
        invariant
            ld.inv(frags@),
            i <= modules@.len(),
            vm == views(modules@),
            mset == views(manual@).to_set(),
            dir == listing_dir(frags@),
            merge_prefix(vm, i as nat, dir, mset, *layout) == Ok::<Consolidated, MergeError>(
                out.model(ld.dir@),
            ),
        decreases modules@.len() - i,
    {
        assert(vm[i as int] == modules@[i as int]@);
        let ghost before = out.model(ld.dir@);
        let step = merge_module(frags, &mut ld, &mut out, modules[i].as_slice(), i, manual, layout);
        if let Err(e) = step {
            proof {
                assert(merge_step(before, vm[i as int], i as int, mset, *layout) == Err::<
                    Consolidated,
                    MergeError,
                >(e));
                assert(merge_prefix(vm, (i + 1) as nat, dir, mset, *layout) == Err::<
                    Consolidated,
                    MergeError,
                >(e));
                lemma_error_stays(vm, (i + 1) as nat, vm.len(), dir, mset, *layout);

            }
            return Err(e);
        }
        i = i + 1;
    }
    let ghost st = out.model(ld.dir@);
    push_hub_tail(&mut out.hub, modules, layout);
    push_manual(&mut out.types, manual, "types");
    push_manual(&mut out.sys, manual, "sys");
    out.consumed = ld.consumed_flags(frags);
    proof {
        let c = finish(st, vm, mset, *layout);
        assert(views(out.bodies@) == c.bodies);
        assert(out.model(c.rest) == c);
    }
    Ok(out)
}

/// The files that a merge has not consumed are files of the directory it
/// started from.
proof fn lemma_rest_within(
    modules: Seq<Seq<u8>>,
    n: nat,
    dir: Map<Seq<u8>, Seq<u8>>,
    manual: Set<Seq<u8>>,
    layout: Layout,
    x: Seq<u8>,
)
    requires
        merge_prefix(modules, n, dir, manual, layout) is Ok,
        merge_prefix(modules, n, dir, manual, layout)->Ok_0.rest.contains_key(x),
    ensures
        dir.contains_key(x),
    decreases n,
{
    reveal(merge_step);
    if n > 0 {
        let st = merge_prefix(modules, (n - 1) as nat, dir, manual, layout)->Ok_0;
        let m = modules[n - 1];
        let cpp_names = in_order(fragments_of(st.rest, m, text("cpp")));
        lemma_remove_names(st.rest, cpp_names, x);
        let dir1 = if st.rest.contains_key(m + text(".cpp")) {
            remove_names(st.rest, cpp_names)
        } else {
            st.rest
        };
        let dir2 = dir1.remove(m + text(".rs"));
        lemma_remove_names(dir2, in_order(fragments_of(dir2, m, text("rs"))), x);
        lemma_rest_within(modules, (n - 1) as nat, dir, manual, layout, x);
    }
}

/// A module whose sys fragment is not in the directory makes the whole merge
/// fail, so that no consolidated file is produced.
pub proof fn lemma_missing_sys_fails(
    modules: Seq<Seq<u8>>,
    k: int,
    dir: Map<Seq<u8>, Seq<u8>>,
    manual: Set<Seq<u8>>,
    layout: Layout,
)
    requires
        0 <= k < modules.len(),
        !dir.contains_key(modules[k] + layout.sys_suffix@),
    ensures
        merged(modules, dir, manual, layout) is Err,
{
    reveal(merge_step);
    let sys_name = modules[k] + layout.sys_suffix@;
    let n = (k + 1) as nat;
    if merge_prefix(modules, k as nat, dir, manual, layout) is Ok {
        let st = merge_prefix(modules, k as nat, dir, manual, layout)->Ok_0;
        if st.rest.contains_key(sys_name) {
            lemma_rest_within(modules, k as nat, dir, manual, layout, sys_name);
        }
        let m = modules[k];
        let cpp_names = in_order(fragments_of(st.rest, m, text("cpp")));
        lemma_remove_names(st.rest, cpp_names, sys_name);
        let dir1 = if st.rest.contains_key(m + text(".cpp")) {
            remove_names(st.rest, cpp_names)
        } else {
            st.rest
        };
        let dir2 = dir1.remove(m + text(".rs"));
        lemma_remove_names(dir2, in_order(fragments_of(dir2, m, text("rs"))), sys_name);
        assert(merge_prefix(modules, n, dir, manual, layout) is Err);
    } else {
        lemma_error_stays(modules, k as nat, n, dir, manual, layout);
    }
    lemma_error_stays(modules, n, modules.len(), dir, manual, layout);
}

/// Two listings of the same files, in any order, merge to the same result.
pub proof fn lemma_listing_order_irrelevant(
    modules: Seq<Seq<u8>>,
    f1: Seq<Fragment>,
    f2: Seq<Fragment>,
    manual: Set<Seq<u8>>,
    layout: Layout,
)
    requires
        distinct_names(f1),
        distinct_names(f2),
        forall|i: int|
            #![trigger f1[i]]
            0 <= i < f1.len() ==> exists|j: int|
                #![trigger f2[j]]
                0 <= j < f2.len() && f2[j].name@ == f1[i].name@ && f2[j].data@ == f1[i].data@,
        forall|j: int|
            #![trigger f2[j]]
            0 <= j < f2.len() ==> exists|i: int|
                #![trigger f1[i]]
                0 <= i < f1.len() && f1[i].name@ == f2[j].name@ && f1[i].data@ == f2[j].data@,
    ensures
        merged(modules, listing_dir(f1), manual, layout) == merged(
            modules,
            listing_dir(f2),
            manual,
            layout,
        ),
{
    lemma_listing_dir(f1);
    lemma_listing_dir(f2);
    let l1 = Seq::new(f1.len(), |i: int| true);
    let l2 = Seq::new(f2.len(), |i: int| true);
    let d1 = listing_dir(f1);
    let d2 = listing_dir(f2);
    assert forall|n: Seq<u8>| d1.contains_key(n) implies d2.contains_key(n) && d2[n] == d1[n] by {
        let i = choose|i: int| 0 <= i < f1.len() && l1[i] && #[trigger] f1[i].name@ == n;
        let j = choose|j: int|
            0 <= j < f2.len() && f2[j].name@ == f1[i].name@ && f2[j].data@ == f1[i].data@;
        assert(l2[j]);
        assert(l1[i]);
    }
    assert forall|n: Seq<u8>| d2.contains_key(n) implies d1.contains_key(n) by {
        let j = choose|j: int| 0 <= j < f2.len() && l2[j] && #[trigger] f2[j].name@ == n;
        let i = choose|i: int|
            0 <= i < f1.len() && f1[i].name@ == f2[j].name@ && f1[i].data@ == f2[j].data@;
        assert(l1[i]);
    }
    assert(d1 =~= d2);
}

} // verus!
