use vstd::prelude::*;
use crate::Error;
use crate::runtime::{RtV, Runtime};
use crate::text::{char_from_u32, is_unicode_scalar, push_char, push_dec_i64, spec_dec_i64};
use crate::words::Prim;

verus! {

/// The Forth truth convention: `-1` for true, `0` for false.
pub open spec fn bool_i32(b: bool) -> i32 {
    if b {
        -1i32
    } else {
        0i32
    }
}

/// The unsigned 32-bit reinterpretation of `v` (two's complement).
pub open spec fn u32_of_i32(v: i32) -> u32 {
    if v >= 0 {
        v as u32
    } else {
        (v + 0x1_0000_0000) as u32
    }
}

/// The character `emit` writes for the value `v`: the Unicode scalar `v`
/// names, or the interrobang when `v` is no scalar value.
pub open spec fn emits_char(v: i32, c: char) -> bool {
    if is_unicode_scalar(u32_of_i32(v)) {
        c as int == u32_of_i32(v)
    } else {
        c == '‽'
    }
}

/// What each primitive does: the exact relation between the runtime before
/// (`a`) and after (`b`) the call, and its result. Every primitive leaves the
/// flow stack alone, and on an error it leaves the whole runtime unchanged.
pub open spec fn builtin_effect(p: Prim, a: RtV, b: RtV, r: Result<(), Error>) -> bool {
    &&& b.flow == a.flow
    &&& (r is Err ==> b == a)
    &&& match p {
        Prim::Emit => if a.data.len() == 0 {
            r == Err::<(), Error>(Error::DataStackUnderflow)
        } else {
            &&& r == Ok::<(), Error>(())
            &&& b.data == a.data.drop_last()
            &&& b.ret == a.ret
            &&& b.out.len() == a.out.len() + 1
            &&& b.out.subrange(0, a.out.len() as int) == a.out
            &&& emits_char(a.data.last(), b.out.last())
        },
        Prim::PrintTop => if a.data.len() == 0 {
            r == Err::<(), Error>(Error::DataStackUnderflow)
        } else {
            &&& r == Ok::<(), Error>(())
            &&& b.data == a.data.drop_last()
            &&& b.ret == a.ret
            &&& b.out == a.out + spec_dec_i64(a.data.last() as int) + seq!['\n']
        },
        Prim::Cr => {
            &&& r == Ok::<(), Error>(())
            &&& b.data == a.data
            &&& b.ret == a.ret
            &&& b.out == a.out.push('\n')
        },
        Prim::RetPush => if a.data.len() == 0 {
            r == Err::<(), Error>(Error::DataStackUnderflow)
        } else {
            &&& r == Ok::<(), Error>(())
            &&& b.data == a.data.drop_last()
            &&& b.ret == a.ret.push(a.data.last())
            &&& b.out == a.out
        },
        Prim::RetPop => if a.ret.len() == 0 {
            r == Err::<(), Error>(Error::DataStackUnderflow)
        } else {
            &&& r == Ok::<(), Error>(())
            &&& b.data == a.data.push(a.ret.last())
            &&& b.ret == a.ret.drop_last()
            &&& b.out == a.out
        },
        Prim::Equal => binop_effect(a, b, r, bool_i32(a.data.last() == a.data[a.data.len() - 2])),
        Prim::Less => binop_effect(a, b, r, bool_i32(a.data[a.data.len() - 2] < a.data.last())),
        Prim::Greater => binop_effect(a, b, r, bool_i32(a.data[a.data.len() - 2] > a.data.last())),
        Prim::Add => binop_effect(
            a,
            b,
            r,
            vstd::wrapping::i32_specs::wrapping_add(a.data.last(), a.data[a.data.len() - 2]),
        ),
        Prim::Dup => if a.data.len() == 0 {
            r == Err::<(), Error>(Error::DataStackEmpty)
        } else {
            &&& r == Ok::<(), Error>(())
            &&& b.data == a.data.push(a.data.last())
            &&& b.ret == a.ret
            &&& b.out == a.out
        },
        Prim::DropTop => if a.data.len() == 0 {
            r == Err::<(), Error>(Error::DataStackUnderflow)
        } else {
            &&& r == Ok::<(), Error>(())
            &&& b.data == a.data.drop_last()
            &&& b.ret == a.ret
            &&& b.out == a.out
        },
        Prim::Swap => if a.data.len() < 2 {
            r == Err::<(), Error>(Error::DataStackUnderflow)
        } else {
            &&& r == Ok::<(), Error>(())
            &&& b.data == a.data.update(a.data.len() - 2, a.data.last()).update(
                a.data.len() - 1,
                a.data[a.data.len() - 2],
            )
            &&& b.ret == a.ret
            &&& b.out == a.out
        },
        Prim::Rot => if a.data.len() < 3 {
            r == Err::<(), Error>(Error::DataStackUnderflow)
        } else {
            &&& r == Ok::<(), Error>(())
            &&& b.data == a.data.subrange(0, a.data.len() - 3).push(
                a.data[a.data.len() - 2],
            ).push(a.data.last()).push(a.data[a.data.len() - 3])
            &&& b.ret == a.ret
            &&& b.out == a.out
        },
        Prim::Pick => if a.data.len() == 0 || a.data.last() < 0 || a.data.last()
            > a.data.len() - 2 {
            r == Err::<(), Error>(Error::DataStackUnderflow)
        } else {
            &&& r == Ok::<(), Error>(())
            &&& b.data == a.data.drop_last().push(a.data[a.data.len() - 2 - a.data.last()])
            &&& b.ret == a.ret
            &&& b.out == a.out
        },
        Prim::Roll => if a.data.len() == 0 || a.data.last() < 0 || a.data.last()
            > a.data.len() - 2 {
            r == Err::<(), Error>(Error::DataStackUnderflow)
        } else {
            &&& r == Ok::<(), Error>(())
            &&& b.data == a.data.drop_last().remove(a.data.len() - 2 - a.data.last()).push(
                a.data[a.data.len() - 2 - a.data.last()],
            )
            &&& b.ret == a.ret
            &&& b.out == a.out
        },
        Prim::TwoDup => if a.data.len() < 2 {
            r == Err::<(), Error>(Error::DataStackUnderflow)
        } else {
            &&& r == Ok::<(), Error>(())
            &&& b.data == a.data.push(a.data[a.data.len() - 2]).push(a.data[a.data.len() - 1])
            &&& b.ret == a.ret
            &&& b.out == a.out
        },
        Prim::RetDup => if a.ret.len() == 0 {
            r == Err::<(), Error>(Error::RetStackEmpty)
        } else {
            &&& r == Ok::<(), Error>(())
            &&& b.data == a.data
            &&& b.ret == a.ret.push(a.ret.last())
            &&& b.out == a.out
        },
        Prim::RetSwap => if a.ret.len() < 2 {
            r == Err::<(), Error>(Error::DataStackUnderflow)
        } else {
            &&& r == Ok::<(), Error>(())
            &&& b.data == a.data
            &&& b.ret == a.ret.update(a.ret.len() - 2, a.ret.last()).update(
                a.ret.len() - 1,
                a.ret[a.ret.len() - 2],
            )
            &&& b.out == a.out
        },
        Prim::RetTwoDup => if a.ret.len() < 2 {
            r == Err::<(), Error>(Error::RetStackEmpty)
        } else {
            &&& r == Ok::<(), Error>(())
            &&& b.data == a.data
            &&& b.ret == a.ret.push(a.ret[a.ret.len() - 2]).push(a.ret[a.ret.len() - 1])
            &&& b.out == a.out
        },
        Prim::PrivLoop => if a.ret.len() < 2 {
            r == Err::<(), Error>(Error::DataStackUnderflow)
        } else if a.ret[a.ret.len() - 2] == i32::MAX {
            r == Err::<(), Error>(Error::BadMath)
        } else {
            let lmt = a.ret.last();
            let idx1 = (a.ret[a.ret.len() - 2] + 1) as i32;
            &&& r == Ok::<(), Error>(())
            &&& b.out == a.out
            &&& if idx1 == lmt {
                b.data == a.data.push(-1i32) && b.ret == a.ret.drop_last().drop_last()
            } else {
                b.data == a.data.push(0i32) && b.ret == a.ret.drop_last().drop_last().push(
                    idx1,
                ).push(lmt)
            }
        },
    }
}

/// The shared shape of the comparison and arithmetic primitives: pop two
/// values, push one result.
pub open spec fn binop_effect(a: RtV, b: RtV, r: Result<(), Error>, res: i32) -> bool {
    if a.data.len() < 2 {
        r == Err::<(), Error>(Error::DataStackUnderflow)
    } else {
        &&& r == Ok::<(), Error>(())
        &&& b.data == a.data.drop_last().drop_last().push(res)
        &&& b.ret == a.ret
        &&& b.out == a.out
    }
}

/// `emit`: pop a value and write it as a Unicode character; a value outside
/// the scalar range writes the interrobang.
pub fn bi_emit(ctxt: &mut Runtime) -> (r: Result<(), Error>)
    ensures
        builtin_effect(Prim::Emit, old(ctxt)@, final(ctxt)@, r),
{
    if ctxt.data_stk.len() == 0 {
        return Err(Error::DataStackUnderflow);
    }
    let v = match ctxt.data_stk.pop() {
        Ok(v) => v,
        Err(e) => { return Err(e) },
    };
    let u: u32 = if v >= 0 {
        v as u32
    } else {
        ((v as i64) + 0x1_0000_0000i64) as u32
    };
    assert(u == u32_of_i32(v));
    let c = match char_from_u32(u) {
        Some(c) => c,
        None => '‽',
    };
    push_char(&mut ctxt.cur_output, c);
    proof {
        assert(ctxt.cur_output@.subrange(0, old(ctxt)@.out.len() as int) =~= old(ctxt)@.out);
    }
    Ok(())
}

/// `.`: pop a value and write its decimal representation and a newline.
pub fn bi_pop(ctxt: &mut Runtime) -> (r: Result<(), Error>)
    ensures
        builtin_effect(Prim::PrintTop, old(ctxt)@, final(ctxt)@, r),
{
    if ctxt.data_stk.len() == 0 {
        return Err(Error::DataStackUnderflow);
    }
    let v = match ctxt.data_stk.pop() {
        Ok(v) => v,
        Err(e) => { return Err(e) },
    };
    push_dec_i64(&mut ctxt.cur_output, v as i64);
    push_char(&mut ctxt.cur_output, '\n');
    proof {
        assert(ctxt.cur_output@ =~= old(ctxt)@.out + spec_dec_i64(v as int) + seq!['\n']);
    }
    Ok(())
}

/// `cr`: write a newline.
pub fn bi_cr(ctxt: &mut Runtime) -> (r: Result<(), Error>)
    ensures
        builtin_effect(Prim::Cr, old(ctxt)@, final(ctxt)@, r),
{
    push_char(&mut ctxt.cur_output, '\n');
    Ok(())
}

/// `drop`: discard the data-stack top.
pub fn bi_drop(ctxt: &mut Runtime) -> (r: Result<(), Error>)
    ensures
        builtin_effect(Prim::DropTop, old(ctxt)@, final(ctxt)@, r),
{
    if ctxt.data_stk.len() == 0 {
        return Err(Error::DataStackUnderflow);
    }
    match ctxt.data_stk.pop() {
        Ok(_) => Ok(()),
        Err(e) => Err(e),
    }
}

/// `rot`: rotate the three top data-stack values, third-from-top to the top.
pub fn bi_rot(ctxt: &mut Runtime) -> (r: Result<(), Error>)
    ensures
        builtin_effect(Prim::Rot, old(ctxt)@, final(ctxt)@, r),
{
    if ctxt.data_stk.len() < 3 {
        return Err(Error::DataStackUnderflow);
    }
    let top = ctxt.data_stk.pop().unwrap();
    let mid = ctxt.data_stk.pop().unwrap();
    let bot = ctxt.data_stk.pop().unwrap();
    ctxt.data_stk.push(mid);
    ctxt.data_stk.push(top);
    ctxt.data_stk.push(bot);
    proof {
        assert(ctxt.data_stk@ =~= old(ctxt)@.data.subrange(0, old(ctxt)@.data.len() - 3).push(
            mid,
        ).push(top).push(bot));
    }
    Ok(())
}

/// `<`: pop two values, push `-1` if the second popped is less than the first.
pub fn bi_lt(ctxt: &mut Runtime) -> (r: Result<(), Error>)
    ensures
        builtin_effect(Prim::Less, old(ctxt)@, final(ctxt)@, r),
{
    if ctxt.data_stk.len() < 2 {
        return Err(Error::DataStackUnderflow);
    }
    let val2 = ctxt.data_stk.pop().unwrap();
    let val1 = ctxt.data_stk.pop().unwrap();
    ctxt.data_stk.push(if val1 < val2 { -1 } else { 0 });
    Ok(())
}

/// `>`: pop two values, push `-1` if the second popped is greater.
pub fn bi_gt(ctxt: &mut Runtime) -> (r: Result<(), Error>)
    ensures
        builtin_effect(Prim::Greater, old(ctxt)@, final(ctxt)@, r),
{
    if ctxt.data_stk.len() < 2 {
        return Err(Error::DataStackUnderflow);
    }
    let val2 = ctxt.data_stk.pop().unwrap();
    let val1 = ctxt.data_stk.pop().unwrap();
    ctxt.data_stk.push(if val1 > val2 { -1 } else { 0 });
    Ok(())
}

/// `=`: pop two values, push `-1` if they are equal.
pub fn bi_eq(ctxt: &mut Runtime) -> (r: Result<(), Error>)
    ensures
        builtin_effect(Prim::Equal, old(ctxt)@, final(ctxt)@, r),
{
    if ctxt.data_stk.len() < 2 {
        return Err(Error::DataStackUnderflow);
    }
    let val1 = ctxt.data_stk.pop().unwrap();
    let val2 = ctxt.data_stk.pop().unwrap();
    ctxt.data_stk.push(if val1 == val2 { -1 } else { 0 });
    Ok(())
}

/// `+`: pop two values, push their wrapping 32-bit sum.
pub fn bi_add(ctxt: &mut Runtime) -> (r: Result<(), Error>)
    ensures
        builtin_effect(Prim::Add, old(ctxt)@, final(ctxt)@, r),
{
    if ctxt.data_stk.len() < 2 {
        return Err(Error::DataStackUnderflow);
    }
    let val1 = ctxt.data_stk.pop().unwrap();
    let val2 = ctxt.data_stk.pop().unwrap();
    ctxt.data_stk.push(val1.wrapping_add(val2));
    Ok(())
}

/// `>r`: move the data-stack top to the return stack.
pub fn bi_retstk_push(ctxt: &mut Runtime) -> (r: Result<(), Error>)
    ensures
        builtin_effect(Prim::RetPush, old(ctxt)@, final(ctxt)@, r),
{
    if ctxt.data_stk.len() == 0 {
        return Err(Error::DataStackUnderflow);
    }
    let val = ctxt.data_stk.pop().unwrap();
    ctxt.ret_stk.push(val);
    Ok(())
}

/// `r>`: move the return-stack top to the data stack.
pub fn bi_retstk_pop(ctxt: &mut Runtime) -> (r: Result<(), Error>)
    ensures
        builtin_effect(Prim::RetPop, old(ctxt)@, final(ctxt)@, r),
{
    if ctxt.ret_stk.len() == 0 {
        return Err(Error::DataStackUnderflow);
    }
    let val = ctxt.ret_stk.pop().unwrap();
    ctxt.data_stk.push(val);
    Ok(())
}

/// `dup`: duplicate the data-stack top.
pub fn bi_dup(ctxt: &mut Runtime) -> (r: Result<(), Error>)
    ensures
        builtin_effect(Prim::Dup, old(ctxt)@, final(ctxt)@, r),
{
    if ctxt.data_stk.len() == 0 {
        return Err(Error::DataStackEmpty);
    }
    let val = ctxt.data_stk.last().unwrap();
    ctxt.data_stk.push(val);
    Ok(())
}

/// duplicate the return-stack top.
pub fn bi_retstk_dup(ctxt: &mut Runtime) -> (r: Result<(), Error>)
    ensures
        builtin_effect(Prim::RetDup, old(ctxt)@, final(ctxt)@, r),
{
    if ctxt.ret_stk.len() == 0 {
        return Err(Error::RetStackEmpty);
    }
    let val = ctxt.ret_stk.last().unwrap();
    ctxt.ret_stk.push(val);
    Ok(())
}

/// `2dup`: duplicate the two top data-stack values.
pub fn bi_2dup(ctxt: &mut Runtime) -> (r: Result<(), Error>)
    ensures
        builtin_effect(Prim::TwoDup, old(ctxt)@, final(ctxt)@, r),
{
    if ctxt.data_stk.len() < 2 {
        return Err(Error::DataStackUnderflow);
    }
    let val1 = ctxt.data_stk.pop().unwrap();
    let val2 = ctxt.data_stk.pop().unwrap();
    ctxt.data_stk.push(val2);
    ctxt.data_stk.push(val1);
    ctxt.data_stk.push(val2);
    ctxt.data_stk.push(val1);
    proof {
        assert(ctxt.data_stk@ =~= old(ctxt)@.data.push(
            old(ctxt)@.data[old(ctxt)@.data.len() - 2],
        ).push(old(ctxt)@.data[old(ctxt)@.data.len() - 1]));
    }
    Ok(())
}

/// duplicate the two top return-stack values.
pub fn bi_retstk_2dup(ctxt: &mut Runtime) -> (r: Result<(), Error>)
    ensures
        builtin_effect(Prim::RetTwoDup, old(ctxt)@, final(ctxt)@, r),
{
    if ctxt.ret_stk.len() < 2 {
        return Err(Error::RetStackEmpty);
    }
    let val1 = ctxt.ret_stk.pop().unwrap();
    let val2 = ctxt.ret_stk.pop().unwrap();
    ctxt.ret_stk.push(val2);
    ctxt.ret_stk.push(val1);
    ctxt.ret_stk.push(val2);
    ctxt.ret_stk.push(val1);
    proof {
        assert(ctxt.ret_stk@ =~= old(ctxt)@.ret.push(
            old(ctxt)@.ret[old(ctxt)@.ret.len() - 2],
        ).push(old(ctxt)@.ret[old(ctxt)@.ret.len() - 1]));
    }
    Ok(())
}

/// exchange the two top return-stack values.
pub fn bi_retstk_swap(ctxt: &mut Runtime) -> (r: Result<(), Error>)
    ensures
        builtin_effect(Prim::RetSwap, old(ctxt)@, final(ctxt)@, r),
{
    if ctxt.ret_stk.len() < 2 {
        return Err(Error::DataStackUnderflow);
    }
    let top = ctxt.ret_stk.pop().unwrap();
    let bot = ctxt.ret_stk.pop().unwrap();
    ctxt.ret_stk.push(top);
    ctxt.ret_stk.push(bot);
    proof {
        assert(ctxt.ret_stk@ =~= old(ctxt)@.ret.update(old(ctxt)@.ret.len() - 2, top).update(
            old(ctxt)@.ret.len() - 1,
            bot,
        ));
    }
    Ok(())
}

/// `swap`: exchange the two top data-stack values.
pub fn bi_swap(ctxt: &mut Runtime) -> (r: Result<(), Error>)
    ensures
        builtin_effect(Prim::Swap, old(ctxt)@, final(ctxt)@, r),
{
    if ctxt.data_stk.len() < 2 {
        return Err(Error::DataStackUnderflow);
    }
    let top = ctxt.data_stk.pop().unwrap();
    let bot = ctxt.data_stk.pop().unwrap();
    ctxt.data_stk.push(top);
    ctxt.data_stk.push(bot);
    proof {
        assert(ctxt.data_stk@ =~= old(ctxt)@.data.update(old(ctxt)@.data.len() - 2, top).update(
            old(ctxt)@.data.len() - 1,
            bot,
        ));
    }
    Ok(())
}

/// `pick`: pop `n`, copy the element `n` below the new top onto the top.
pub fn bi_pick(ctxt: &mut Runtime) -> (r: Result<(), Error>)
    ensures
        builtin_effect(Prim::Pick, old(ctxt)@, final(ctxt)@, r),
{
    let len = ctxt.data_stk.len();
    if len == 0 {
        return Err(Error::DataStackUnderflow);
    }
    let top = ctxt.data_stk.last().unwrap();
    if top < 0 || len == 1 || (top as usize) > len - 2 {
        return Err(Error::DataStackUnderflow);
    }
    let n = top as usize;
    let _ = ctxt.data_stk.pop().unwrap();
    let val = ctxt.data_stk.peek_back(n).unwrap();
    ctxt.data_stk.push(val);
    Ok(())
}

/// `roll`: pop `n`, move the element `n` below the new top to the top.
pub fn bi_roll(ctxt: &mut Runtime) -> (r: Result<(), Error>)
    ensures
        builtin_effect(Prim::Roll, old(ctxt)@, final(ctxt)@, r),
{
    let len = ctxt.data_stk.len();
    if len == 0 {
        return Err(Error::DataStackUnderflow);
    }
    let top = ctxt.data_stk.last().unwrap();
    if top < 0 || len == 1 || (top as usize) > len - 2 {
        return Err(Error::DataStackUnderflow);
    }
    let n = top as usize;
    let _ = ctxt.data_stk.pop().unwrap();
    let val = ctxt.data_stk.pop_back(n).unwrap();
    ctxt.data_stk.push(val);
    Ok(())
}

/// The internal loop step emitted for `loop`: pop `limit` and `index` from
/// the return stack, increment the index; when it reaches the limit push `-1`
/// (done), else push `0` and restore the pair.
pub fn bi_priv_loop(ctxt: &mut Runtime) -> (r: Result<(), Error>)
    ensures
        builtin_effect(Prim::PrivLoop, old(ctxt)@, final(ctxt)@, r),
{
    if ctxt.ret_stk.len() < 2 {
        return Err(Error::DataStackUnderflow);
    }
    let lmt = ctxt.ret_stk.last().unwrap();
    let idx = ctxt.ret_stk.peek_back(1).unwrap();
    if idx == i32::MAX {
        return Err(Error::BadMath);
    }
    let _ = ctxt.ret_stk.pop().unwrap();
    let _ = ctxt.ret_stk.pop().unwrap();
    let idx1 = idx + 1;
    if idx1 == lmt {
        ctxt.data_stk.push(-1);
    } else {
        ctxt.data_stk.push(0);
        ctxt.ret_stk.push(idx1);
        ctxt.ret_stk.push(lmt);
    }
    Ok(())
}

/// Runs the primitive `p` against the runtime.
pub fn exec_builtin(ctxt: &mut Runtime, p: Prim) -> (r: Result<(), Error>)
    ensures
        builtin_effect(p, old(ctxt)@, final(ctxt)@, r),
{
    match p {
        Prim::Emit => bi_emit(ctxt),
        Prim::PrintTop => bi_pop(ctxt),
        Prim::Cr => bi_cr(ctxt),
        Prim::RetPush => bi_retstk_push(ctxt),
        Prim::RetPop => bi_retstk_pop(ctxt),
        Prim::Equal => bi_eq(ctxt),
        Prim::Less => bi_lt(ctxt),
        Prim::Greater => bi_gt(ctxt),
        Prim::Dup => bi_dup(ctxt),
        Prim::DropTop => bi_drop(ctxt),
        Prim::Swap => bi_swap(ctxt),
        Prim::Rot => bi_rot(ctxt),
        Prim::Pick => bi_pick(ctxt),
        Prim::Roll => bi_roll(ctxt),
        Prim::Add => bi_add(ctxt),
        Prim::TwoDup => bi_2dup(ctxt),
        Prim::RetDup => bi_retstk_dup(ctxt),
        Prim::RetSwap => bi_retstk_swap(ctxt),
        Prim::RetTwoDup => bi_retstk_2dup(ctxt),
        Prim::PrivLoop => bi_priv_loop(ctxt),
    }
}

} // verus!
