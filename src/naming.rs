//! File names in the shared output directory, and which of them are type
//! fragments of a given module.
use vstd::prelude::*;
use vstd::utf8::valid_utf8;

verus! {

/// An ASCII decimal digit.
pub open spec fn is_digit(b: u8) -> bool {
    0x30 <= b && b <= 0x39
}

/// `s` ends with `suffix`.
pub open spec fn ends_with(s: Seq<u8>, suffix: Seq<u8>) -> bool {
    suffix.len() <= s.len() && s.subrange(s.len() - suffix.len(), s.len() as int) == suffix
}

/// The suffix that every type fragment's stem carries.
pub open spec fn type_marker() -> Seq<u8> {
    seq![0x2e, 0x74, 0x79, 0x70, 0x65]
}

/// A stem of the form `DDD-<module>-<anything>.type`: three digits, a dash,
/// the whole module name, a dash, and the `.type` marker at the end.
pub open spec fn is_type_stem(stem: Seq<u8>, module: Seq<u8>) -> bool {
    &&& stem.len() >= module.len() + 10
    &&& is_digit(stem[0]) && is_digit(stem[1]) && is_digit(stem[2])
    &&& stem[3] == 0x2d
    &&& stem.subrange(4, 4 + module.len() as int) == module
    &&& stem[4 + module.len() as int] == 0x2d
    &&& ends_with(stem, type_marker())
}

/// Index of the last `.` in a file name, if any.
pub open spec fn last_dot(name: Seq<u8>) -> Option<int>
    decreases name.len(),
{
    if name.len() == 0 {
        None
    } else if name.last() == 0x2e {
        Some(name.len() - 1)
    } else {
        last_dot(name.drop_last())
    }
}

/// The stem of a file name: everything before the last `.`, or the whole
/// name when it has no `.` or only a leading one.
pub open spec fn file_stem(name: Seq<u8>) -> Seq<u8> {
    match last_dot(name) {
        Some(i) if i > 0 => name.subrange(0, i),
        _ => name,
    }
}

/// The extension of a file name: what follows the last `.`, where that `.`
/// is not the first byte.
pub open spec fn file_extension(name: Seq<u8>) -> Option<Seq<u8>> {
    match last_dot(name) {
        Some(i) if i > 0 => Some(name.subrange(i + 1, name.len() as int)),
        _ => None,
    }
}

/// A file named `name` is a type fragment of `module`: its stem is text
/// (valid UTF-8) of the type-fragment form.
pub open spec fn spec_is_type_file(name: Seq<u8>, module: Seq<u8>) -> bool {
    is_type_stem(file_stem(name), module) && valid_utf8(file_stem(name))
}

/// Relies on std::str::from_utf8: it succeeds exactly on well-formed UTF-8.
#[verifier::external_body]
fn is_utf8(b: &[u8]) -> (r: bool)
    ensures
        r == valid_utf8(b@),
{
    std::str::from_utf8(b).is_ok()
}

/// The first `n` bytes of `s`, as a new vector.
fn prefix_of(s: &[u8], n: usize) -> (r: Vec<u8>)
    requires
        n <= s@.len(),
    ensures
        r@ == s@.subrange(0, n as int),
{
    let mut r: Vec<u8> = Vec::new();
    let mut i: usize = 0;
    while i < n
        invariant
            i <= n <= s@.len(),
            r@ == s@.subrange(0, i as int),
        decreases n - i,
    {
        r.push(s[i]);
        i = i + 1;
        assert(r@ =~= s@.subrange(0, i as int));
    }
    r
}

/// A file named `name` has extension `ext` and is a type fragment of `module`.
pub open spec fn is_fragment_of(name: Seq<u8>, module: Seq<u8>, ext: Seq<u8>) -> bool {
    file_extension(name) == Some(ext) && spec_is_type_file(name, module)
}

proof fn lemma_last_dot_bounds(name: Seq<u8>)
    ensures
        last_dot(name) is Some ==> 0 <= last_dot(name)->0 < name.len(),
    decreases name.len(),
{
    if name.len() > 0 && name.last() != 0x2e {
        lemma_last_dot_bounds(name.drop_last());
        assert(forall|j: int| 0 <= j < name.len() - 1 ==> name.drop_last()[j] == name[j]);
    }
}

/// Finds the last `.` of a file name.
fn find_last_dot(name: &[u8]) -> (r: Option<usize>)
    ensures
        match r {
            Some(i) => last_dot(name@) == Some(i as int),
            None => last_dot(name@) is None,
        },
{
    let mut k: usize = name.len();
    assert(name@.subrange(0, k as int) =~= name@);
    while k > 0
        invariant
            k <= name@.len(),
            last_dot(name@) == last_dot(name@.subrange(0, k as int)),
        decreases k,
    {
        let sub = Ghost(name@.subrange(0, k as int));
        if name[k - 1] == 0x2e {
            return Some(k - 1);
        }
        assert(sub@.drop_last() =~= name@.subrange(0, k - 1));
        k = k - 1;
    }
    assert(name@.subrange(0, 0).len() == 0);
    None
}

/// Length of the stem of `name`.
fn stem_len(name: &[u8]) -> (r: usize)
    ensures
        r <= name@.len(),
        file_stem(name@) == name@.subrange(0, r as int),
{
    proof {
        lemma_last_dot_bounds(name@);
    }
    match find_last_dot(name) {
        Some(i) if i > 0 => i,
        _ => {
            assert(name@.subrange(0, name@.len() as int) =~= name@);
            name.len()
        },
    }
}

/// Decides whether a file named `name` (the last component of its path) is a
/// type fragment of `module`: its stem is valid UTF-8, and is three ASCII
/// digits, a dash, the whole module name, a dash, and ends with `.type`. A
/// module whose name is a prefix of another's does not take the other's
/// fragments, since the dash must follow the name directly.
pub fn is_type_file(name: &[u8], module: &[u8]) -> (r: bool)
    ensures
        r == spec_is_type_file(name@, module@),
{
    let n = stem_len(name);
    let ghost stem = name@.subrange(0, n as int);
    if module.len() > n || n - module.len() < 10 {
        return false;
    }
    let m = module.len();
    assert(file_stem(name@) == stem);
    assert(forall|j: int| 0 <= j < n ==> stem[j] == name@[j]);
    if !(0x30 <= name[0] && name[0] <= 0x39 && 0x30 <= name[1] && name[1] <= 0x39 && 0x30
        <= name[2] && name[2] <= 0x39 && name[3] == 0x2d && name[4 + m] == 0x2d) {
        return false;
    }
    let mut i: usize = 0;
    while i < m
        invariant
            i <= m,
            m == module@.len(),
            4 + m + 5 <= n <= name@.len(),
            stem == name@.subrange(0, n as int),
            file_stem(name@) == stem,
            forall|j: int| 0 <= j < i ==> name@[4 + j] == module@[j],
        decreases m - i,
    {
        if name[4 + i] != module[i] {
            assert(stem.subrange(4, 4 + m as int)[i as int] != module@[i as int]);
            return false;
        }
        i = i + 1;
    }
    assert(stem.subrange(4, 4 + m as int) =~= module@);
    let marker: [u8; 5] = [0x2e, 0x74, 0x79, 0x70, 0x65];
    let mut k: usize = 0;
    while k < 5
        invariant
            k <= 5,
            10 <= n <= name@.len(),
            marker@ == type_marker(),
            stem == name@.subrange(0, n as int),
            file_stem(name@) == stem,
            forall|j: int| 0 <= j < k ==> name@[n - 5 + j] == marker@[j],
        decreases 5 - k,
    {
        if name[n - 5 + k] != marker[k] {
            assert(stem.subrange(n - 5, n as int)[k as int] != type_marker()[k as int]);
            return false;
        }
        k = k + 1;
    }
    assert(stem.subrange(n - 5, n as int) =~= type_marker());
    let stem_bytes = prefix_of(name, n);
    is_utf8(stem_bytes.as_slice())
}

/// Decides whether `name` has the extension `ext` and is a type fragment of
/// `module`.
pub fn is_fragment(name: &[u8], module: &[u8], ext: &[u8]) -> (r: bool)
    ensures
        r == is_fragment_of(name@, module@, ext@),
{
    proof {
        lemma_last_dot_bounds(name@);
    }
    let dot = find_last_dot(name);
    let i: usize = match dot {
        Some(i) => i,
        None => {
            return false;
        },
    };
    if i == 0 {
        return false;
    }
    proof {
        lemma_last_dot_bounds(name@);
    }
    assert(i < name@.len());
    if name.len() - (i + 1) != ext.len() {
        return false;
    }
    let mut k: usize = 0;
    while k < ext.len()
        invariant
            k <= ext@.len(),
            i + 1 + ext.len() == name.len(),
            name.len() == name@.len(),
            0 < i < name@.len(),
            last_dot(name@) == Some(i as int),
            forall|j: int| 0 <= j < k ==> name@[i + 1 + j] == ext@[j],
        decreases ext@.len() - k,
    {
        if name[i + 1 + k] != ext[k] {
            assert(name@.subrange(i + 1, name@.len() as int)[k as int] != ext@[k as int]);
            return false;
        }
        k = k + 1;
    }
    assert(name@.subrange(i + 1, name@.len() as int) =~= ext@);
    is_type_file(name, module)
}

/// Of two module names where one extends the other, a stem is a type
/// fragment of at most one of them, unless the longer name continues the
/// shorter with a dash.
pub proof fn lemma_prefix_modules_disjoint(stem: Seq<u8>, m1: Seq<u8>, m2: Seq<u8>)
    requires
        m1.len() < m2.len(),
        m2.subrange(0, m1.len() as int) == m1,
        m2[m1.len() as int] != 0x2d,
    ensures
        !(is_type_stem(stem, m1) && is_type_stem(stem, m2)),
{
    if is_type_stem(stem, m1) && is_type_stem(stem, m2) {
        assert(stem.subrange(4, 4 + m2.len() as int)[m1.len() as int] == stem[4 + m1.len() as int]);
    }
}

} // verus!
