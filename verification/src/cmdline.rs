//! Extraction of a process's program name from its raw command-line bytes,
//! which the kernel exposes as NUL-separated arguments.

use vstd::prelude::*;
use vstd::seq_lib::*;

verus! {

/// The first NUL-separated field of a command line: everything up to the
/// first zero byte, or all of it when no zero byte occurs.
pub open spec fn first_field(bytes: Seq<u8>) -> Seq<u8> {
    match bytes.index_of_first(0u8) {
        None => bytes,
        Some(k) => bytes.take(k),
    }
}

/// The program name: the command-line bytes truncated at the first NUL.
pub fn program_name(cmdline: &Vec<u8>) -> (r: Vec<u8>)
    ensures
        r@ == first_field(cmdline@),
{
    let n = cmdline.len();
    let mut r: Vec<u8> = Vec::new();
    let mut i: usize = 0;
    while i < n
        invariant
            i <= n,
            n == cmdline@.len(),
            r@ == cmdline@.take(i as int),
            forall|m: int| 0 <= m < i ==> cmdline@[m] != 0u8,
        decreases n - i,
    {
        let b = cmdline[i];
        if b == 0 {
            proof {
                assert(cmdline@[i as int] == 0u8);
                assert(cmdline@.contains(0u8));
                cmdline@.index_of_first_ensures(0u8);
                let idx = cmdline@.index_of_first(0u8)->Some_0;
                if idx < i as int {
                    assert(cmdline@[idx] != 0u8);
                }
                if idx > i as int {
                    assert(cmdline@[i as int] != 0u8);
                }
            }
            return r;
        }
        r.push(b);
        proof {
            assert(r@ =~= cmdline@.take(i + 1));
        }
        i = i + 1;
    }
    proof {
        if cmdline@.contains(0u8) {
            let w = choose|m: int| 0 <= m < cmdline@.len() && cmdline@[m] == 0u8;
            assert(cmdline@[w] != 0u8);
        }
        cmdline@.index_of_first_ensures(0u8);
        assert(r@ =~= cmdline@);
    }
    r
}

} // verus!
