//! Naming of the temporary files of atomic writes: one per writer process and attempt, so
//! a crashed or concurrent writer's file is never reused or removed.
use vstd::prelude::*;
use crate::text::{chars_of, dec_str, push_decimal, push_range, string_of};

verus! {

/// The temporary file name of attempt `sequence` of process `pid`.
pub fn temp_name(pid: u32, sequence: u64) -> (r: String)
    ensures
        r@ == ".task-manager-"@ + dec_str(pid as nat) + seq!['-'] + dec_str(sequence as nat) + ".tmp"@,
{
    let mut v = chars_of(".task-manager-");
    push_decimal(&mut v, pid as u64);
    v.push('-');
    push_decimal(&mut v, sequence);
    let t = chars_of(".tmp");
    assert(t@.subrange(0, t@.len() as int) =~= t@);
    push_range(&mut v, &t, 0, t.len());
    string_of(v.as_slice())
}

} // verus!
