//! Copying text one indentation level deeper.
use vstd::prelude::*;

verus! {

/// Byte `k` of `input` begins a line: it is the first byte, or follows a
/// newline.
pub open spec fn starts_line(input: Seq<u8>, k: int) -> bool {
    k == 0 || input[k - 1] == 0x0a
}

/// `input` with `indent` put in front of every line. A line ends after a
/// newline or at the end of the input; the bytes themselves are kept as they
/// are, a last line without a newline as well.
pub open spec fn indented(input: Seq<u8>, indent: Seq<u8>) -> Seq<u8>
    decreases input.len(),
{
    if input.len() == 0 {
        seq![]
    } else {
        let k = input.len() - 1;
        indented(input.drop_last(), indent) + (if starts_line(input, k) {
            indent
        } else {
            seq![]
        }) + seq![input[k]]
    }
}

/// Appends `src` to `out`.
pub fn append_bytes(out: &mut Vec<u8>, src: &[u8])
    ensures
        final(out)@ == old(out)@ + src@,
{
    let mut i: usize = 0;
    while i < src.len()
        invariant
            i <= src@.len(),
            out@ == old(out)@ + src@.subrange(0, i as int),
        decreases src@.len() - i,
    {
        out.push(src[i]);
        i = i + 1;
        assert(out@ =~= old(out)@ + src@.subrange(0, i as int));
    }
    assert(src@.subrange(0, i as int) =~= src@);
}

/// Copies `read` to the end of `write`, each line preceded by `indent`.
/// Nothing is written for an empty input.
pub fn copy_indent(read: &[u8], write: &mut Vec<u8>, indent: &[u8])
    ensures
        final(write)@ == old(write)@ + indented(read@, indent@),
        read@.len() == 0 ==> final(write)@ == old(write)@,
{
    let mut i: usize = 0;
    assert(read@.subrange(0, 0) =~= Seq::<u8>::empty());
    assert(old(write)@ + Seq::<u8>::empty() =~= old(write)@);
    while i < read.len()
        invariant
            i <= read@.len(),
            write@ == old(write)@ + indented(read@.subrange(0, i as int), indent@),
        decreases read@.len() - i,
    {
        let ghost before = write@;
        let ghost prefix = read@.subrange(0, i + 1);
        if i == 0 || read[i - 1] == 0x0a {
            append_bytes(write, indent);
        }
        write.push(read[i]);
        assert(prefix.drop_last() =~= read@.subrange(0, i as int));
        assert(starts_line(prefix, i as int) == (i == 0 || read@[i - 1] == 0x0a));
        i = i + 1;
        assert(write@ =~= old(write)@ + indented(prefix, indent@));
    }
    assert(read@.subrange(0, i as int) =~= read@);
}

} // verus!
