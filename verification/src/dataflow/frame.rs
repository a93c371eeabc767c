//! Operand stacks and local arrays held in plain vectors.
use vstd::prelude::*;

verus! {

/// `locals` grown with `fill` so that `index` is a valid slot.
pub open spec fn ensured<V>(locals: Seq<V>, index: int, fill: V) -> Seq<V> {
    if index < locals.len() {
        locals
    } else {
        locals + Seq::new((index + 1 - locals.len()) as nat, |i: int| fill)
    }
}

/// Grows `locals` with `fill` until `index` is a valid slot.
pub fn ensure_local<V: Copy>(locals: &mut Vec<V>, index: usize, fill: V)
    requires
        index < usize::MAX,
    ensures
        final(locals)@ == ensured(old(locals)@, index as int, fill),
        index < final(locals)@.len(),
{
    let ghost start = locals@;
    if index >= locals.len() {
        let n = locals.len();
        let mut k: usize = n;
        while k <= index
            invariant
                n == start.len(),
                n <= k <= index + 1,
                index < usize::MAX,
                locals@ == start + Seq::new((k - n) as nat, |i: int| fill),
            decreases index + 1 - k,
        {
            locals.push(fill);
            k = k + 1;
            assert(locals@ =~= start + Seq::new((k - n) as nat, |i: int| fill));
        }
    }
}

/// The top of `stack`, removed, or `unknown` when it is empty.
pub fn pop_or_unknown<V: Copy>(stack: &mut Vec<V>, unknown: V) -> (res: V)
    ensures
        old(stack)@.len() > 0 ==> res == old(stack)@.last() && final(stack)@ == old(stack)@.drop_last(),
        old(stack)@.len() == 0 ==> res == unknown && final(stack)@ == old(stack)@,
{
    match stack.pop() {
        Some(v) => v,
        None => unknown,
    }
}

} // verus!
