use vstd::prelude::*;
use vstd::string::{StringExecFns, StringSliceAdditionalSpecFns};

verus! {

/// An IPv4 address: four octets in network order.
#[derive(PartialEq, Eq, PartialOrd, Ord, Copy, Clone, Hash, Debug, Structural)]
pub struct Addr(pub u8, pub u8, pub u8, pub u8);

/// Why a value is not an address.
#[derive(PartialEq, Eq, Copy, Clone, Debug, Structural)]
pub enum AddrError {
    /// A byte form whose length is not four.
    MalformedAddress,
    /// A text form that is not four dot-separated decimal fields of 0 to 255.
    ParseError,
}

impl Addr {
    pub open spec fn octets(self) -> Seq<u8> {
        seq![self.0, self.1, self.2, self.3]
    }
}

pub open spec fn addr_of(b: Seq<u8>) -> Addr {
    Addr(b[0], b[1], b[2], b[3])
}

pub open spec fn is_digit(c: u8) -> bool {
    48 <= c <= 57
}

pub open spec fn all_digits(s: Seq<u8>) -> bool {
    forall|i: int| 0 <= i < s.len() ==> is_digit(#[trigger] s[i])
}

/// The number that a string of decimal digits spells.
pub open spec fn digits_value(s: Seq<u8>) -> nat
    decreases s.len(),
{
    if s.len() == 0 {
        0
    } else {
        digits_value(s.drop_last()) * 10 + (s.last() - 48) as nat
    }
}

pub open spec fn valid_field(s: Seq<u8>) -> bool {
    s.len() > 0 && all_digits(s) && digits_value(s) <= 255
}

/// The pieces of `s` between dots; there is always at least one.
pub open spec fn split_dots(s: Seq<u8>) -> Seq<Seq<u8>>
    decreases s.len(),
{
    if s.len() == 0 {
        seq![Seq::empty()]
    } else {
        let p = split_dots(s.drop_last());
        if s.last() == 46 {
            p.push(Seq::empty())
        } else {
            p.update(p.len() - 1, p.last().push(s.last()))
        }
    }
}

/// The address that a dotted-decimal text spells, if it spells one.
pub open spec fn parse_text_spec(s: Seq<u8>) -> Option<Addr> {
    let f = split_dots(s);
    if f.len() == 4 && valid_field(f[0]) && valid_field(f[1]) && valid_field(f[2]) && valid_field(
        f[3],
    ) {
        Some(
            Addr(
                digits_value(f[0]) as u8,
                digits_value(f[1]) as u8,
                digits_value(f[2]) as u8,
                digits_value(f[3]) as u8,
            ),
        )
    } else {
        None
    }
}

/// The decimal digits of `n`, without leading zeros.
pub open spec fn decimal(n: nat) -> Seq<u8>
    decreases n,
{
    if n < 10 {
        seq![(48 + n) as u8]
    } else {
        decimal(n / 10).push((48 + n % 10) as u8)
    }
}

/// The canonical dotted-decimal text of an address.
pub open spec fn dotted(a: Addr) -> Seq<u8> {
    decimal(a.0 as nat) + seq![46u8] + decimal(a.1 as nat) + seq![46u8] + decimal(a.2 as nat)
        + seq![46u8] + decimal(a.3 as nat)
}

/// The canonical form of a dotted-decimal text: each field without leading zeros.
pub open spec fn canonical(s: Seq<u8>) -> Seq<u8> {
    let f = split_dots(s);
    decimal(digits_value(f[0])) + seq![46u8] + decimal(digits_value(f[1])) + seq![46u8] + decimal(
        digits_value(f[2]),
    ) + seq![46u8] + decimal(digits_value(f[3]))
}

/// Pieces that can never become an address, however the text goes on: too
/// many fields, a finished field that is not a number of 0 to 255, or a
/// non-digit in the field being read.
pub open spec fn hopeless(f: Seq<Seq<u8>>) -> bool {
    ||| f.len() > 4
    ||| exists|j: int| 0 <= j < f.len() - 1 && !valid_field(#[trigger] f[j])
    ||| !all_digits(f.last())
}

proof fn lemma_split_nonempty(s: Seq<u8>)
    ensures
        split_dots(s).len() >= 1,
    decreases s.len(),
{
    if s.len() > 0 {
        lemma_split_nonempty(s.drop_last());
    }
}

proof fn lemma_hopeless_step(s: Seq<u8>, c: u8)
    requires
        hopeless(split_dots(s)),
    ensures
        hopeless(split_dots(s.push(c))),
{
    lemma_split_nonempty(s);
    let f = split_dots(s);
    let g = split_dots(s.push(c));
    assert(s.push(c).drop_last() =~= s);
    if c == 46 {
        assert(g == f.push(Seq::empty()));
        if f.len() > 4 {
        } else if exists|j: int| 0 <= j < f.len() - 1 && !valid_field(#[trigger] f[j]) {
            let j = choose|j: int| 0 <= j < f.len() - 1 && !valid_field(#[trigger] f[j]);
            assert(g[j] == f[j]);
        } else {
            assert(g[f.len() - 1] == f.last());
            assert(!valid_field(g[f.len() - 1]));
        }
    } else {
        assert(g == f.update(f.len() - 1, f.last().push(c)));
        if exists|j: int| 0 <= j < f.len() - 1 && !valid_field(#[trigger] f[j]) {
            let j = choose|j: int| 0 <= j < f.len() - 1 && !valid_field(#[trigger] f[j]);
            assert(g[j] == f[j]);
        } else if !all_digits(f.last()) {
            let k = choose|k: int| 0 <= k < f.last().len() && !is_digit(#[trigger] f.last()[k]);
            assert(g.last()[k] == f.last()[k]);
        }
    }
}

proof fn lemma_digits_step(s: Seq<u8>, c: u8)
    requires
        is_digit(c),
    ensures
        digits_value(s.push(c)) == digits_value(s) * 10 + (c - 48),
{
    assert(s.push(c).drop_last() =~= s);
}

/// Reads an address from its dotted-decimal text: exactly four fields
/// separated by dots, each a string of decimal digits whose value is at most 255.
pub fn parse_text(text: &str) -> (r: Result<Addr, AddrError>)
    ensures
        match r {
            Ok(a) => parse_text_spec(text.spec_bytes()) == Some(a),
            Err(e) => e == AddrError::ParseError && parse_text_spec(text.spec_bytes()) == None::<Addr>,
        },
{
    let b = text.as_bytes();
    let mut done: Vec<u8> = Vec::new();
    let mut cur: u32 = 0;
    let mut cur_len: usize = 0;
    let mut ok = true;
    let mut i: usize = 0;
    while i < b.len()
        invariant
            i <= b@.len(),
            cur_len <= i,
            split_dots(b@.take(i as int)).len() >= 1,
            ok ==> {
                let f = split_dots(b@.take(i as int));
                &&& f.len() == done@.len() + 1
                &&& f.len() <= 4
                &&& forall|j: int| 0 <= j < done@.len() ==> valid_field(#[trigger] f[j]) && done@[j] == digits_value(f[j])
                &&& all_digits(f.last())
                &&& cur_len == f.last().len()
                &&& cur == (if digits_value(f.last()) < 256 { digits_value(f.last()) } else { 256 })
            },
            !ok ==> hopeless(split_dots(b@.take(i as int))),
        decreases b@.len() - i,
    {
        let c = b[i];
        let ghost pre = b@.take(i as int);
        proof {
            assert(b@.take(i + 1) =~= pre.push(c));
            assert(pre.push(c).drop_last() =~= pre);
            lemma_split_nonempty(pre.push(c));
        }
        if !ok {
            proof { lemma_hopeless_step(pre, c); }
        } else if c == 46 {
            if cur_len == 0 || cur > 255 || done.len() == 3 {
                ok = false;
                proof {
                    let f = split_dots(pre);
                    let g = split_dots(pre.push(c));
                    assert(g == f.push(Seq::empty()));
                    assert(g[f.len() - 1] == f.last());
                }
            } else {
                done.push(cur as u8);
                cur = 0;
                cur_len = 0;
                proof {
                    let f = split_dots(pre);
                    let g = split_dots(pre.push(c));
                    assert(g == f.push(Seq::empty()));
                    assert(g[f.len() - 1] == f.last());
                    assert forall|j: int| 0 <= j < done@.len() implies valid_field(#[trigger] g[j]) && done@[j] == digits_value(g[j]) by {
                        if j < done@.len() - 1 {
                            assert(g[j] == f[j]);
                        }
                    }
                }
            }
        } else if 48 <= c && c <= 57 {
            let ghost f = split_dots(pre);
            proof {
                lemma_digits_step(f.last(), c);
            }
            if cur < 256 {
                cur = cur * 10 + (c - 48) as u32;
                if cur > 256 {
                    cur = 256;
                }
            }
            cur_len = cur_len + 1;
            proof {
                let g = split_dots(pre.push(c));
                assert(g == f.update(f.len() - 1, f.last().push(c)));
                assert forall|j: int| 0 <= j < done@.len() implies valid_field(#[trigger] g[j]) && done@[j] == digits_value(g[j]) by {
                    assert(g[j] == f[j]);
                }
            }
        } else {
            ok = false;
            proof {
                let f = split_dots(pre);
                let g = split_dots(pre.push(c));
                assert(g == f.update(f.len() - 1, f.last().push(c)));
                assert(g.last()[g.last().len() - 1] == c);
            }
        }
        i = i + 1;
    }
    proof {
        assert(b@.take(b@.len() as int) =~= b@);
    }
    if ok && done.len() == 3 && cur_len > 0 && cur <= 255 {
        Ok(Addr(done[0], done[1], done[2], cur as u8))
    } else {
        proof {
            let f = split_dots(b@);
            if ok {
                if f.len() == 4 {
                    assert(!valid_field(f[3]));
                }
            } else if f.len() <= 4 {
                if exists|j: int| 0 <= j < f.len() - 1 && !valid_field(#[trigger] f[j]) {
                } else {
                    assert(!valid_field(f[f.len() - 1]));
                }
            }
        }
        Err(AddrError::ParseError)
    }
}

impl std::str::FromStr for Addr {
    type Err = AddrError;

    fn from_str(s: &str) -> Result<Addr, AddrError> {
        parse_text(s)
    }
}

/// Builds an address from exactly four octets.
pub fn parse_addr(b: &[u8; 4]) -> (r: Addr)
    ensures
        r.octets() == b@,
{
    let r = Addr(b[0], b[1], b[2], b[3]);
    assert(r.octets() =~= b@);
    r
}

/// Reads an address from a byte form, which must be exactly four octets long.
pub fn parse_addr_unsafe(b: &[u8]) -> (r: Result<Addr, AddrError>)
    ensures
        b@.len() == 4 ==> r == Ok::<Addr, AddrError>(addr_of(b@)),
        b@.len() != 4 ==> r == Err::<Addr, AddrError>(AddrError::MalformedAddress),
{
    if b.len() != 4 {
        Err(AddrError::MalformedAddress)
    } else {
        Ok(Addr(b[0], b[1], b[2], b[3]))
    }
}

/// The four octets of an address.
pub fn write_addr(a: Addr) -> (r: [u8; 4])
    ensures
        r@ == a.octets(),
{
    let r = [a.0, a.1, a.2, a.3];
    assert(r@ =~= a.octets());
    r
}

impl Addr {
    /// The four octets, in network order.
    pub fn to_bytes(&self) -> (r: Vec<u8>)
        ensures
            r@ == self.octets(),
    {
        let r = vec![self.0, self.1, self.2, self.3];
        assert(r@ =~= self.octets());
        r
    }
}

proof fn lemma_decimal(n: nat)
    ensures
        decimal(n).len() > 0,
        all_digits(decimal(n)),
        digits_value(decimal(n)) == n,
    decreases n,
{
    if n < 10 {
        lemma_digits_step(Seq::empty(), (48 + n) as u8);
        assert(seq![(48 + n) as u8] =~= Seq::<u8>::empty().push((48 + n) as u8));
    } else {
        lemma_decimal(n / 10);
        let d = decimal(n / 10);
        let c = (48 + n % 10) as u8;
        lemma_digits_step(d, c);
        assert(c - 48 == n % 10);
        assert((n / 10) * 10 + n % 10 == n) by (nonlinear_arith);
        assert forall|i: int| 0 <= i < d.push(c).len() implies is_digit(#[trigger] d.push(c)[i]) by {
            if i < d.len() {
                assert(d.push(c)[i] == d[i]);
            }
        }
    }
}

proof fn lemma_split_append(x: Seq<u8>, y: Seq<u8>)
    requires
        all_digits(y),
    ensures
        split_dots(x + y) == split_dots(x).update(
            split_dots(x).len() - 1,
            split_dots(x).last() + y,
        ),
    decreases y.len(),
{
    lemma_split_nonempty(x);
    let f = split_dots(x);
    if y.len() == 0 {
        assert(x + y =~= x);
        assert(f.last() + y =~= f.last());
        assert(f.update(f.len() - 1, f.last()) =~= f);
    } else {
        let y0 = y.drop_last();
        let c = y.last();
        assert(all_digits(y0)) by {
            assert forall|i: int| 0 <= i < y0.len() implies is_digit(#[trigger] y0[i]) by {
                assert(y0[i] == y[i]);
            }
        }
        lemma_split_append(x, y0);
        assert((x + y).drop_last() =~= x + y0);
        assert(is_digit(y[y.len() - 1]));
        assert((x + y).last() == c);
        let p = split_dots(x + y0);
        assert(p.last() == f.last() + y0);
        assert((f.last() + y0).push(c) =~= f.last() + y);
        assert(p.update(p.len() - 1, p.last().push(c)) =~= f.update(f.len() - 1, f.last() + y));
    }
}

proof fn lemma_split_dot(x: Seq<u8>)
    ensures
        split_dots(x + seq![46u8]) == split_dots(x).push(Seq::empty()),
{
    assert((x + seq![46u8]).drop_last() =~= x);
}

/// Reading the canonical text of an address gives the address back.
pub proof fn lemma_text_round_trip(a: Addr)
    ensures
        parse_text_spec(dotted(a)) == Some(a),
{
    let (d0, d1, d2, d3) = (decimal(a.0 as nat), decimal(a.1 as nat), decimal(a.2 as nat), decimal(a.3 as nat));
    lemma_decimal(a.0 as nat);
    lemma_decimal(a.1 as nat);
    lemma_decimal(a.2 as nat);
    lemma_decimal(a.3 as nat);
    let dot = seq![46u8];
    let e = Seq::<u8>::empty();
    lemma_split_append(e, d0);
    assert(e + d0 =~= d0);
    assert(split_dots(e) == seq![e]);
    assert(split_dots(d0) =~= seq![d0]);
    lemma_split_dot(d0);
    lemma_split_append(d0 + dot, d1);
    assert(split_dots(d0 + dot + d1) =~= seq![d0, d1]);
    lemma_split_dot(d0 + dot + d1);
    lemma_split_append(d0 + dot + d1 + dot, d2);
    assert(split_dots(d0 + dot + d1 + dot + d2) =~= seq![d0, d1, d2]);
    lemma_split_dot(d0 + dot + d1 + dot + d2);
    lemma_split_append(d0 + dot + d1 + dot + d2 + dot, d3);
    assert(split_dots(dotted(a)) =~= seq![d0, d1, d2, d3]);
}

/// Reading a valid text and writing the address back gives the text's
/// canonical form.
pub proof fn lemma_canonical(s: Seq<u8>)
    requires
        parse_text_spec(s).is_some(),
    ensures
        dotted(parse_text_spec(s).unwrap()) == canonical(s),
{
}

/// Reading four octets and writing the address back gives them unchanged.
pub proof fn lemma_octets_round_trip(b: Seq<u8>)
    requires
        b.len() == 4,
    ensures
        addr_of(b).octets() == b,
{
    assert(addr_of(b).octets() =~= b);
}

fn push_decimal(out: &mut Vec<u8>, n: u8)
    ensures
        final(out)@ == old(out)@ + decimal(n as nat),
{
    proof {
        reveal_with_fuel(decimal, 3);
    }
    if n >= 100 {
        out.push(48 + n / 100);
        out.push(48 + (n / 10) % 10);
        out.push(48 + n % 10);
        assert(decimal(n as nat) =~= seq![(48 + n / 100) as u8, (48 + (n / 10) % 10) as u8, (48 + n % 10) as u8]);
    } else if n >= 10 {
        out.push(48 + n / 10);
        out.push(48 + n % 10);
        assert(decimal(n as nat) =~= seq![(48 + n / 10) as u8, (48 + n % 10) as u8]);
    } else {
        out.push(48 + n);
    }
    assert(final(out)@ =~= old(out)@ + decimal(n as nat));
}

/// Text whose characters are the given ASCII bytes.
pub open spec fn chars_of(s: Seq<u8>) -> Seq<char> {
    Seq::new(s.len(), |i: int| s[i] as char)
}

fn symbol(c: u8) -> (r: &'static str)
    requires
        is_digit(c) || c == 46,
    ensures
        r@ == seq![c as char],
{
    match c {
        48 => { proof { reveal_strlit("0"); } "0" },
        49 => { proof { reveal_strlit("1"); } "1" },
        50 => { proof { reveal_strlit("2"); } "2" },
        51 => { proof { reveal_strlit("3"); } "3" },
        52 => { proof { reveal_strlit("4"); } "4" },
        53 => { proof { reveal_strlit("5"); } "5" },
        54 => { proof { reveal_strlit("6"); } "6" },
        55 => { proof { reveal_strlit("7"); } "7" },
        56 => { proof { reveal_strlit("8"); } "8" },
        57 => { proof { reveal_strlit("9"); } "9" },
        _ => { proof { reveal_strlit("."); } "." },
    }
}

impl Addr {
    /// The canonical dotted-decimal text of the address.
    pub fn to_string(&self) -> (r: String)
        ensures
            r@ == chars_of(dotted(*self)),
    {
        let b = self.format_bytes();
        proof {
            lemma_decimal(self.0 as nat);
            lemma_decimal(self.1 as nat);
            lemma_decimal(self.2 as nat);
            lemma_decimal(self.3 as nat);
            let (d0, d1, d2, d3) = (decimal(self.0 as nat), decimal(self.1 as nat), decimal(self.2 as nat), decimal(self.3 as nat));
            assert forall|i: int| 0 <= i < b@.len() implies is_digit(#[trigger] b@[i]) || b@[i] == 46 by {
                let n0 = d0.len() as int;
                let n1 = n0 + 1 + d1.len();
                let n2 = n1 + 1 + d2.len();
                if i < n0 {
                    assert(b@[i] == d0[i]);
                } else if i == n0 {
                } else if i < n1 {
                    assert(b@[i] == d1[i - n0 - 1]);
                } else if i == n1 {
                } else if i < n2 {
                    assert(b@[i] == d2[i - n1 - 1]);
                } else if i == n2 {
                } else {
                    assert(b@[i] == d3[i - n2 - 1]);
                }
            }
        }
        let mut s = String::new();
        let mut i: usize = 0;
        while i < b.len()
            invariant
                i <= b@.len(),
                forall|j: int| 0 <= j < b@.len() ==> is_digit(#[trigger] b@[j]) || b@[j] == 46,
                s@ == chars_of(b@.take(i as int)),
            decreases b@.len() - i,
        {
            s.append(symbol(b[i]));
            assert(s@ =~= chars_of(b@.take(i + 1)));
            i = i + 1;
        }
        assert(b@.take(b@.len() as int) =~= b@);
        s
    }

    /// The canonical dotted-decimal text of the address, as bytes.
    pub fn format_bytes(&self) -> (r: Vec<u8>)
        ensures
            r@ == dotted(*self),
    {
        let mut out: Vec<u8> = Vec::new();
        push_decimal(&mut out, self.0);
        out.push(46);
        push_decimal(&mut out, self.1);
        out.push(46);
        push_decimal(&mut out, self.2);
        out.push(46);
        push_decimal(&mut out, self.3);
        assert(out@ =~= dotted(*self));
        out
    }
}

} // verus!
