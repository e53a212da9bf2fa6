//! Building replies, and reading arguments.
use vstd::prelude::*;

use crate::resp::{Reply, RespValue, err_reply, reply_of};
use crate::text::{concat_text, copy_text, texts_view, upper_case};

verus! {

/// The reply to a command given too few arguments.
pub open spec fn arity_reply(name: Seq<char>) -> Reply {
    err_reply("wrong number of arguments for '"@ + name + "' command"@)
}

/// An array of bulk strings.
pub open spec fn bulks(items: Seq<Seq<char>>) -> Reply {
    Reply::List(Some(items.map_values(|s: Seq<char>| Reply::Bulk(Some(s)))))
}

/// An array of optional bulk strings.
pub open spec fn opt_bulks(items: Seq<Option<Seq<char>>>) -> Reply {
    Reply::List(Some(items.map_values(|o: Option<Seq<char>>| Reply::Bulk(o))))
}

pub open spec fn opt_texts_view(v: Seq<Option<String>>) -> Seq<Option<Seq<char>>> {
    v.map_values(|o: Option<String>| match o {
        Some(s) => Some(s@),
        None => None,
    })
}

pub open spec fn strs_view(v: Seq<&str>) -> Seq<Seq<char>> {
    v.map_values(|s: &str| s@)
}

/// The reply whose elements are the replies of `v`.
pub proof fn lemma_array_view(v: Vec<RespValue>, target: Seq<Reply>)
    requires
        v@.len() == target.len(),
        forall|i: int| 0 <= i < target.len() ==> reply_of(#[trigger] v@[i]) == target[i],
    ensures
        reply_of(RespValue::Array(Some(v))) == Reply::List(Some(target)),
{
    let got = reply_of(RespValue::Array(Some(v)));
    assert(got matches Reply::List(Some(s)) && s =~= target);
}

/// The error for too few arguments to `name`.
pub fn wrong_arity(name: &str) -> (r: RespValue)
    ensures
        r@ == arity_reply(name@),
{
    let a = concat_text("wrong number of arguments for '", name);
    let m = concat_text(a.as_str(), "' command");
    assert(m@ == "wrong number of arguments for '"@ + name@ + "' command"@);
    RespValue::error(m.as_str())
}

/// An array of bulk strings.
pub fn bulk_array(items: Vec<String>) -> (r: RespValue)
    ensures
        r@ == bulks(texts_view(items@)),
{
    let mut out: Vec<RespValue> = Vec::new();
    let mut i: usize = 0;
    let ghost target = texts_view(items@).map_values(|s: Seq<char>| Reply::Bulk(Some(s)));
    while i < items.len()
        invariant
            i <= items@.len(),
            target == texts_view(items@).map_values(|s: Seq<char>| Reply::Bulk(Some(s))),
            out@.len() == i,
            forall|j: int| 0 <= j < i ==> reply_of(#[trigger] out@[j]) == target[j],
        decreases items@.len() - i,
    {
        out.push(RespValue::BulkString(Some(copy_text(&items[i]))));
        i = i + 1;
    }
    proof {
        lemma_array_view(out, target);
    }
    RespValue::Array(Some(out))
}

/// An array of optional bulk strings.
pub fn opt_bulk_array(items: Vec<Option<String>>) -> (r: RespValue)
    ensures
        r@ == opt_bulks(opt_texts_view(items@)),
{
    let mut out: Vec<RespValue> = Vec::new();
    let mut i: usize = 0;
    let ghost target = opt_texts_view(items@).map_values(|o: Option<Seq<char>>| Reply::Bulk(o));
    while i < items.len()
        invariant
            i <= items@.len(),
            target == opt_texts_view(items@).map_values(|o: Option<Seq<char>>| Reply::Bulk(o)),
            out@.len() == i,
            forall|j: int| 0 <= j < i ==> reply_of(#[trigger] out@[j]) == target[j],
        decreases items@.len() - i,
    {
        let item = match &items[i] {
            Some(s) => RespValue::BulkString(Some(copy_text(s))),
            None => RespValue::BulkString(None),
        };
        out.push(item);
        i = i + 1;
    }
    proof {
        lemma_array_view(out, target);
    }
    RespValue::Array(Some(out))
}

/// `args[from..]` as string slices.
pub fn tail_strs(args: &Vec<String>, from: usize) -> (r: Vec<&str>)
    requires
        from <= args@.len(),
    ensures
        strs_view(r@) == texts_view(args@).skip(from as int),
{
    let mut r: Vec<&str> = Vec::new();
    let mut i = from;
    while i < args.len()
        invariant
            from <= i <= args@.len(),
            strs_view(r@) == texts_view(args@).subrange(from as int, i as int),
        decreases args@.len() - i,
    {
        let ghost before = r@;
        let s = args[i].as_str();
        assert(s@ == texts_view(args@)[i as int]);
        r.push(s);
        assert(strs_view(r@) =~= strs_view(before).push(s@));
        assert(strs_view(r@) =~= texts_view(args@).subrange(from as int, i as int + 1));
        i = i + 1;
    }
    assert(texts_view(args@).subrange(from as int, args@.len() as int) =~= texts_view(args@).skip(from as int));
    r
}

/// Whether `s`, upper-cased, is `lit`.
pub fn upper_is(s: &str, lit: &str) -> (r: bool)
    ensures
        r == (upper_case(s@) == lit@),
{
    let u = crate::text::to_upper(s);
    crate::text::text_eq(u.as_str(), lit)
}

} // verus!
