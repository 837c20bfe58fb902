use vstd::prelude::*;

verus! {

broadcast use vstd::std_specs::vec::group_vec_axioms, vstd::seq::group_seq_axioms;

/// A value that the host binds as a script global.
#[derive(Debug)]
pub enum Value {
    Nil,
    Bool(bool),
    Int(i64),
    Text(String),
    List(Vec<Value>),
    Table(Vec<(String, Value)>),
}

/// The decimal digits of `n`, most significant first.
pub open spec fn digits(n: nat) -> Seq<u8>
    decreases n,
{
    if n < 10 {
        seq![(48 + n) as u8]
    } else {
        digits(n / 10) + seq![(48 + n % 10) as u8]
    }
}

/// Lua source for the integer `n`. A negative one is written `(-1-k)`, so that
/// the smallest `i64` stays an integer literal.
pub open spec fn int_literal(n: int) -> Seq<u8> {
    if n >= 0 {
        digits(n as nat)
    } else {
        seq![40u8, 45u8, 49u8, 45u8] + digits((-n - 1) as nat) + seq![41u8]
    }
}

/// A byte written as a Lua decimal escape `\ddd`.
pub open spec fn escaped_byte(b: u8) -> Seq<u8> {
    seq![92u8, (48 + b / 100) as u8, (48 + (b / 10) % 10) as u8, (48 + b % 10) as u8]
}

pub open spec fn escaped(s: Seq<u8>) -> Seq<u8>
    decreases s.len(),
{
    if s.len() == 0 {
        seq![]
    } else {
        escaped(s.drop_last()) + escaped_byte(s.last())
    }
}

/// A Lua string literal that holds exactly the bytes `s`.
pub open spec fn quoted(s: Seq<u8>) -> Seq<u8> {
    seq![34u8] + escaped(s) + seq![34u8]
}

/// Lua source for an expression that evaluates to `v`.
pub open spec fn literal(v: Value) -> Seq<u8>
    decreases v, 0int,
{
    match v {
        Value::Nil => seq![110u8, 105u8, 108u8],
        Value::Bool(b) => if b {
            seq![116u8, 114u8, 117u8, 101u8]
        } else {
            seq![102u8, 97u8, 108u8, 115u8, 101u8]
        },
        Value::Int(n) => int_literal(n as int),
        Value::Text(s) => quoted(vstd::utf8::encode_utf8(s@)),
        Value::List(items) => seq![123u8] + list_body(items, items.len() as int) + seq![125u8],
        Value::Table(entries) => seq![123u8] + table_body(entries, entries.len() as int) + seq![
            125u8,
        ],
    }
}

/// The first `n` items, each followed by a comma.
pub open spec fn list_body(items: Vec<Value>, n: int) -> Seq<u8>
    decreases items, n,
{
    if n <= 0 || n > items.len() {
        seq![]
    } else {
        list_body(items, n - 1) + literal(items[n - 1]) + seq![44u8]
    }
}

/// The first `n` entries, each as `[key]=value,`.
pub open spec fn table_body(entries: Vec<(String, Value)>, n: int) -> Seq<u8>
    decreases entries, n,
{
    if n <= 0 || n > entries.len() {
        seq![]
    } else {
        table_body(entries, n - 1) + seq![91u8] + quoted(
            vstd::utf8::encode_utf8(entries[n - 1].0@),
        ) + seq![93u8, 61u8] + literal(entries[n - 1].1) + seq![44u8]
    }
}

/// Lua source for a statement that binds the global `name` to `v`.
pub open spec fn binding(name: Seq<char>, v: Value) -> Seq<u8> {
    seq![95u8, 71u8, 91u8] + quoted(vstd::utf8::encode_utf8(name)) + seq![93u8, 61u8] + literal(v)
}

pub fn push_digits(out: &mut Vec<u8>, n: u64)
    ensures
        final(out)@ == old(out)@ + digits(n as nat),
    decreases n,
{
    if n >= 10 {
        push_digits(out, n / 10);
    }
    out.push((48 + n % 10) as u8);
}

pub fn push_int(out: &mut Vec<u8>, n: i64)
    ensures
        final(out)@ == old(out)@ + int_literal(n as int),
{
    if n >= 0 {
        push_digits(out, n as u64);
    } else {
        out.push(40u8);
        out.push(45u8);
        out.push(49u8);
        out.push(45u8);
        push_digits(out, (-(n + 1)) as u64);
        out.push(41u8);
    }
    assert(out@ =~= old(out)@ + int_literal(n as int));
}

pub fn push_quoted(out: &mut Vec<u8>, s: &[u8])
    ensures
        final(out)@ == old(out)@ + quoted(s@),
{
    out.push(34u8);
    let mut k: usize = 0;
    while k < s.len()
        invariant
            k <= s@.len(),
            out@ == old(out)@ + seq![34u8] + escaped(s@.subrange(0, k as int)),
        decreases s@.len() - k,
    {
        let b = s[k];
        out.push(92u8);
        out.push(48 + b / 100);
        out.push(48 + (b / 10) % 10);
        out.push(48 + b % 10);
        k = k + 1;
        assert(s@.subrange(0, k as int).drop_last() =~= s@.subrange(0, k - 1));
    }
    out.push(34u8);
    assert(s@.subrange(0, s@.len() as int) =~= s@);
    assert(out@ =~= old(out)@ + quoted(s@));
}

pub fn push_literal(out: &mut Vec<u8>, v: &Value)
    ensures
        final(out)@ == old(out)@ + literal(*v),
    decreases v,
{
    match v {
        Value::Nil => {
            out.push(110u8);
            out.push(105u8);
            out.push(108u8);
        },
        Value::Bool(b) => {
            if *b {
                out.push(116u8);
                out.push(114u8);
                out.push(117u8);
                out.push(101u8);
            } else {
                out.push(102u8);
                out.push(97u8);
                out.push(108u8);
                out.push(115u8);
                out.push(101u8);
            }
        },
        Value::Int(n) => {
            push_int(out, *n);
        },
        Value::Text(s) => {
            push_quoted(out, s.as_str().as_bytes());
        },
        Value::List(items) => {
            out.push(123u8);
            let mut k: usize = 0;
            while k < items.len()
                invariant
                    k <= items@.len(),
                    decreases_to!(*v => *items),
                    out@ == old(out)@ + seq![123u8] + list_body(*items, k as int),
                decreases items@.len() - k,
            {
                proof {
                    vstd::std_specs::vec::axiom_vec_index_decreases(*items, k as int);
                }
                assert(decreases_to!(*v => items[k as int]));
                push_literal(out, &items[k]);
                out.push(44u8);
                k = k + 1;
            }
            out.push(125u8);
        },
        Value::Table(entries) => {
            out.push(123u8);
            let mut k: usize = 0;
            while k < entries.len()
                invariant
                    k <= entries@.len(),
                    decreases_to!(*v => *entries),
                    out@ == old(out)@ + seq![123u8] + table_body(*entries, k as int),
                decreases entries@.len() - k,
            {
                out.push(91u8);
                push_quoted(out, entries[k].0.as_str().as_bytes());
                out.push(93u8);
                out.push(61u8);
                proof {
                    vstd::std_specs::vec::axiom_vec_index_decreases(*entries, k as int);
                }
                assert(decreases_to!(*v => entries[k as int]));
                assert(decreases_to!(*v => entries[k as int].1));
                push_literal(out, &entries[k].1);
                out.push(44u8);
                k = k + 1;
            }
            out.push(125u8);
        },
    }
}

/// Lua source that binds the global `name` to `v`.
pub fn binding_source(name: &str, v: &Value) -> (r: Vec<u8>)
    ensures
        r@ == binding(name@, *v),
{
    let mut out: Vec<u8> = Vec::new();
    out.push(95u8);
    out.push(71u8);
    out.push(91u8);
    push_quoted(&mut out, name.as_bytes());
    out.push(93u8);
    out.push(61u8);
    push_literal(&mut out, v);
    assert(out@ =~= binding(name@, *v));
    out
}

} // verus!
