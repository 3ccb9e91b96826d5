//! The built-in blacklist: exported symbol names that must not serve
//! as reachability roots.  They are compiler-emitted runtime helpers
//! (arithmetic builtins, the memory intrinsics, the personality routine
//! and `main`); a blacklisted export does not pull its target into the
//! live set, though the target may become live through another path.
//! Matching is by exact name.

use vstd::prelude::*;

verus! {

/// Whether `s` is one of the blacklisted export names.
pub open spec fn blacklisted(s: Seq<char>) -> bool {
    ||| s == "main"@
    ||| s == "rust_eh_personality"@
    ||| s == "memcpy"@
    ||| s == "memmove"@
    ||| s == "memset"@
    ||| s == "memcmp"@
    ||| s == "__ashldi3"@
    ||| s == "__ashlti3"@
    ||| s == "__ashrdi3"@
    ||| s == "__ashrti3"@
    ||| s == "__lshrdi3"@
    ||| s == "__lshrti3"@
    ||| s == "__floatsisf"@
    ||| s == "__floatsidf"@
    ||| s == "__floatdidf"@
    ||| s == "__floattisf"@
    ||| s == "__floattidf"@
    ||| s == "__floatunsisf"@
    ||| s == "__floatunsidf"@
    ||| s == "__floatundidf"@
    ||| s == "__floatuntisf"@
    ||| s == "__floatuntidf"@
    ||| s == "__fixsfsi"@
    ||| s == "__fixsfdi"@
    ||| s == "__fixsfti"@
    ||| s == "__fixdfsi"@
    ||| s == "__fixdfdi"@
    ||| s == "__fixdfti"@
    ||| s == "__fixunssfsi"@
    ||| s == "__fixunssfdi"@
    ||| s == "__fixunssfti"@
    ||| s == "__fixunsdfsi"@
    ||| s == "__fixunsdfdi"@
    ||| s == "__fixunsdfti"@
    ||| s == "__udivsi3"@
    ||| s == "__umodsi3"@
    ||| s == "__udivmodsi4"@
    ||| s == "__udivdi3"@
    ||| s == "__udivmoddi4"@
    ||| s == "__umoddi3"@
    ||| s == "__udivti3"@
    ||| s == "__udivmodti4"@
    ||| s == "__umodti3"@
    ||| s == "__powisf2"@
    ||| s == "__powidf2"@
    ||| s == "__addsf3"@
    ||| s == "__adddf3"@
    ||| s == "__subsf3"@
    ||| s == "__subdf3"@
    ||| s == "__divsi3"@
    ||| s == "__divdi3"@
    ||| s == "__divti3"@
    ||| s == "__divdf3"@
    ||| s == "__divsf3"@
    ||| s == "__modsi3"@
    ||| s == "__moddi3"@
    ||| s == "__modti3"@
    ||| s == "__divmodsi4"@
    ||| s == "__divmoddi4"@
    ||| s == "__muldi3"@
    ||| s == "__multi3"@
    ||| s == "__muldf3"@
    ||| s == "__mulsf3"@
    ||| s == "__mulosi4"@
    ||| s == "__mulodi4"@
    ||| s == "__muloti4"@
}

/// Exact-match test against the built-in blacklist.
pub fn is_blacklisted(name: &String) -> (r: bool)
    ensures
        r == blacklisted(name@),
{
    *name == "main".to_owned()
    || *name == "rust_eh_personality".to_owned()
    || *name == "memcpy".to_owned()
    || *name == "memmove".to_owned()
    || *name == "memset".to_owned()
    || *name == "memcmp".to_owned()
    || *name == "__ashldi3".to_owned()
    || *name == "__ashlti3".to_owned()
    || *name == "__ashrdi3".to_owned()
    || *name == "__ashrti3".to_owned()
    || *name == "__lshrdi3".to_owned()
    || *name == "__lshrti3".to_owned()
    || *name == "__floatsisf".to_owned()
    || *name == "__floatsidf".to_owned()
    || *name == "__floatdidf".to_owned()
    || *name == "__floattisf".to_owned()
    || *name == "__floattidf".to_owned()
    || *name == "__floatunsisf".to_owned()
    || *name == "__floatunsidf".to_owned()
    || *name == "__floatundidf".to_owned()
    || *name == "__floatuntisf".to_owned()
    || *name == "__floatuntidf".to_owned()
    || *name == "__fixsfsi".to_owned()
    || *name == "__fixsfdi".to_owned()
    || *name == "__fixsfti".to_owned()
    || *name == "__fixdfsi".to_owned()
    || *name == "__fixdfdi".to_owned()
    || *name == "__fixdfti".to_owned()
    || *name == "__fixunssfsi".to_owned()
    || *name == "__fixunssfdi".to_owned()
    || *name == "__fixunssfti".to_owned()
    || *name == "__fixunsdfsi".to_owned()
    || *name == "__fixunsdfdi".to_owned()
    || *name == "__fixunsdfti".to_owned()
    || *name == "__udivsi3".to_owned()
    || *name == "__umodsi3".to_owned()
    || *name == "__udivmodsi4".to_owned()
    || *name == "__udivdi3".to_owned()
    || *name == "__udivmoddi4".to_owned()
    || *name == "__umoddi3".to_owned()
    || *name == "__udivti3".to_owned()
    || *name == "__udivmodti4".to_owned()
    || *name == "__umodti3".to_owned()
    || *name == "__powisf2".to_owned()
    || *name == "__powidf2".to_owned()
    || *name == "__addsf3".to_owned()
    || *name == "__adddf3".to_owned()
    || *name == "__subsf3".to_owned()
    || *name == "__subdf3".to_owned()
    || *name == "__divsi3".to_owned()
    || *name == "__divdi3".to_owned()
    || *name == "__divti3".to_owned()
    || *name == "__divdf3".to_owned()
    || *name == "__divsf3".to_owned()
    || *name == "__modsi3".to_owned()
    || *name == "__moddi3".to_owned()
    || *name == "__modti3".to_owned()
    || *name == "__divmodsi4".to_owned()
    || *name == "__divmoddi4".to_owned()
    || *name == "__muldi3".to_owned()
    || *name == "__multi3".to_owned()
    || *name == "__muldf3".to_owned()
    || *name == "__mulsf3".to_owned()
    || *name == "__mulosi4".to_owned()
    || *name == "__mulodi4".to_owned()
    || *name == "__muloti4".to_owned()
}

} // verus!
