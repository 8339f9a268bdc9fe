//! Server addresses typed on the connect screen, and the history of
//! addresses connected to.

use vstd::prelude::*;
use crate::settings::str_views;

verus! {

/// How many addresses the connection history keeps.
pub const MAX_HISTORY: usize = 10;

/// Whether a character code has the Unicode `White_Space` property, the
/// property `char::is_whitespace` tests.
pub open spec fn white_space_code(u: u32) -> bool {
    ||| 0x09 <= u <= 0x0D
    ||| u == 0x20
    ||| u == 0x85
    ||| u == 0xA0
    ||| u == 0x1680
    ||| 0x2000 <= u <= 0x200A
    ||| u == 0x2028
    ||| u == 0x2029
    ||| u == 0x202F
    ||| u == 0x205F
    ||| u == 0x3000
}

pub open spec fn is_white_space(c: char) -> bool {
    white_space_code(c as u32)
}

/// Whether `c` is white space.
pub fn char_is_white_space(c: char) -> (r: bool)
    ensures
        r == is_white_space(c),
{
    let u = c as u32;
    (0x09 <= u && u <= 0x0D) || u == 0x20 || u == 0x85 || u == 0xA0 || u == 0x1680 || (0x2000 <= u
        && u <= 0x200A) || u == 0x2028 || u == 0x2029 || u == 0x202F || u == 0x205F || u == 0x3000
}

/// `s` without its leading white space.
pub open spec fn trim_start(s: Seq<char>) -> Seq<char>
    decreases s.len(),
{
    if s.len() > 0 && is_white_space(s[0]) {
        trim_start(s.skip(1))
    } else {
        s
    }
}

/// `s` without its trailing white space.
pub open spec fn trim_end(s: Seq<char>) -> Seq<char>
    decreases s.len(),
{
    if s.len() > 0 && is_white_space(s.last()) {
        trim_end(s.drop_last())
    } else {
        s
    }
}

/// `s` without leading and trailing white space.
pub open spec fn trim(s: Seq<char>) -> Seq<char> {
    trim_end(trim_start(s))
}

/// Removes leading and trailing white space.
pub fn trim_str(s: &str) -> (r: String)
    ensures
        r@ == trim(s@),
{
    let n = s.unicode_len();
    let mut i: usize = 0;
    assert(s@.skip(0) =~= s@);
    while i < n && char_is_white_space(s.get_char(i))
        invariant
            n == s@.len(),
            i <= n,
            trim_start(s@) == trim_start(s@.skip(i as int)),
        decreases n - i,
    {
        assert(s@.skip(i as int).skip(1) =~= s@.skip(i as int + 1));
        i = i + 1;
    }
    let ghost rest = s@.skip(i as int);
    assert(trim_start(rest) == rest) by {
        if rest.len() > 0 {
            assert(rest[0] == s@[i as int]);
        }
    }
    let mut j: usize = n;
    while j > i && char_is_white_space(s.get_char(j - 1))
        invariant
            n == s@.len(),
            i <= j <= n,
            rest == s@.skip(i as int),
            trim_end(rest) == trim_end(s@.subrange(i as int, j as int)),
        decreases j,
    {
        assert(s@.subrange(i as int, j as int).drop_last() =~= s@.subrange(i as int, j as int - 1));
        j = j - 1;
    }
    let ghost mid = s@.subrange(i as int, j as int);
    assert(trim_end(mid) == mid) by {
        if mid.len() > 0 {
            assert(mid.last() == s@[j as int - 1]);
        }
    }
    assert(rest =~= s@.subrange(i as int, n as int));
    String::from_str(s.substring_char(i, j))
}

/// A typed server address: trimmed, with the default port `4242` added
/// when it names none.
pub open spec fn normalized_addr(addr: Seq<char>) -> Seq<char> {
    if trim(addr).contains(':') {
        trim(addr)
    } else {
        trim(addr) + ":4242"@
    }
}

/// Trims a typed server address and adds the default port when it has none.
pub fn normalize_addr(addr: &str) -> (r: String)
    ensures
        r@ == normalized_addr(addr@),
{
    let mut t = trim_str(addr);
    if crate::settings::contains_char(t.as_str(), ':') {
        t
    } else {
        t.append(":4242");
        t
    }
}

/// The address to connect to for what was typed, if it names a host: the
/// normalized address, unless it is empty or starts with `:`.
pub fn connect_address(typed: &str) -> (r: Option<String>)
    ensures
        match r {
            Some(a) => {
                &&& a@ == normalized_addr(typed@)
                &&& normalized_addr(typed@).len() > 0
                &&& normalized_addr(typed@)[0] != ':'
            },
            None => normalized_addr(typed@).len() == 0 || normalized_addr(typed@)[0] == ':',
        },
{
    let a = normalize_addr(typed);
    let n = a.as_str().unicode_len();
    if n == 0 || a.as_str().get_char(0) == ':' {
        None
    } else {
        Some(a)
    }
}

/// The history after connecting to `addr`: `addr` first, then the earlier
/// entries other than `addr`, keeping at most [`MAX_HISTORY`].
pub open spec fn pushed_history(h: Seq<Seq<char>>, addr: Seq<char>) -> Seq<Seq<char>> {
    let all = seq![addr] + h.filter(|a: Seq<char>| a != addr);
    if all.len() > MAX_HISTORY {
        all.take(MAX_HISTORY as int)
    } else {
        all
    }
}

/// Addresses connected to, most recent first.
#[derive(Debug, Clone, Default)]
pub struct ConnectionHistory(pub Vec<String>);

impl ConnectionHistory {
    /// Records a connection to `addr`: it moves to the front, and only the
    /// most recent [`MAX_HISTORY`] addresses stay.
    pub fn push_front(&mut self, addr: String)
        ensures
            str_views(final(self).0@) == pushed_history(str_views(old(self).0@), addr@),
    {
        let ghost pred = |a: Seq<char>| a != addr@;
        let ghost h = str_views(self.0@);
        let key = addr.clone();
        let mut kept: Vec<String> = Vec::new();
        kept.push(addr);
        let mut k: usize = 0;
        while k < self.0.len()
            invariant
                k <= self.0@.len(),
                h == str_views(self.0@),
                pred == (|a: Seq<char>| a != key@),
                str_views(kept@) == seq![key@] + h.take(k as int).filter(pred),
            decreases self.0@.len() - k,
        {
            let ghost before = kept@;
            assert(h.take(k as int + 1).drop_last() =~= h.take(k as int));
            assert(h.take(k as int + 1).last() == self.0@[k as int]@);
            if !crate::text::str_eq(self.0[k].as_str(), key.as_str()) {
                let c = self.0[k].clone();
                kept.push(c);
                assert(str_views(kept@) =~= str_views(before).push(self.0@[k as int]@));
            }
            proof {
                reveal_with_fuel(Seq::<_>::filter, 1);
                assert(str_views(kept@) =~= seq![key@] + h.take(k as int + 1).filter(pred));
            }
            k = k + 1;
        }
        assert(h.take(self.0@.len() as int) =~= h);
        if kept.len() > MAX_HISTORY {
            kept.truncate(MAX_HISTORY);
            assert(str_views(kept@) =~= (seq![key@] + h.filter(pred)).take(MAX_HISTORY as int));
        }
        self.0 = kept;
    }
}


/// A normalized address always names a port: it holds a `:`.
pub proof fn lemma_normalized_addr_has_port(addr: Seq<char>)
    ensures
        normalized_addr(addr).contains(':'),
{
    if !trim(addr).contains(':') {
        reveal_strlit(":4242");
        let r = trim(addr) + ":4242"@;
        assert(r[trim(addr).len() as int] == ':');
    }
}

/// After connecting to `addr`, the history starts with `addr`, holds it
/// only there, and keeps at most [`MAX_HISTORY`] entries.
pub proof fn lemma_history_front_unique(h: Seq<Seq<char>>, addr: Seq<char>)
    ensures
        pushed_history(h, addr).len() <= MAX_HISTORY,
        pushed_history(h, addr)[0] == addr,
        forall|i: int| 0 < i < pushed_history(h, addr).len() ==> #[trigger] pushed_history(h, addr)[i] != addr,
{
    let pred = |a: Seq<char>| a != addr;
    let rest = h.filter(pred);
    let all = seq![addr] + rest;
    assert forall|i: int| 0 < i < all.len() implies #[trigger] all[i] != addr by {
        assert(all[i] == rest[i - 1]);
        h.lemma_filter_pred(pred, i - 1);
    }
}

} // verus!
