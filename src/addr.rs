use vstd::prelude::*;

verus! {

/// The port a server listens on where its address names none.
pub const DEFAULT_PORT: u16 = 8439;

/// A server address as written: a host and a port, not yet resolved.
#[derive(Clone, Debug, PartialEq, Eq)]
pub struct HostPort {
    pub host: String,
    pub port: u16,
}

pub open spec fn is_digit(c: char) -> bool {
    '0' <= c && c <= '9'
}

/// The number that a string of decimal digits spells.
pub open spec fn digits_value(s: Seq<char>) -> int
    decreases s.len(),
{
    if s.len() == 0 {
        0
    } else {
        digits_value(s.drop_last()) * 10 + (s.last() as int - '0' as int)
    }
}

pub open spec fn all_digits(d: Seq<char>) -> bool {
    forall|i: int| 0 <= i < d.len() ==> is_digit(#[trigger] d[i])
}

/// The text after a leading `+`, if any.
pub open spec fn port_digits(s: Seq<char>) -> Seq<char> {
    if s.len() > 0 && s[0] == '+' {
        s.drop_first()
    } else {
        s
    }
}

/// A port number as Rust's `u16` parsing reads it: an optional `+`, then
/// one or more decimal digits, at most 65535.
pub open spec fn parse_port(s: Seq<char>) -> Option<u16> {
    let d = port_digits(s);
    if d.len() > 0 && all_digits(d) && digits_value(d) <= 65535 {
        Some(digits_value(d) as u16)
    } else {
        None
    }
}

pub open spec fn has_char(s: Seq<char>, c: char) -> bool {
    exists|i: int| 0 <= i < s.len() && s[i] == c
}

/// `k` is the place of the first `c` of `s`.
pub open spec fn is_first(s: Seq<char>, c: char, k: int) -> bool {
    &&& 0 <= k < s.len()
    &&& s[k] == c
    &&& forall|j: int| 0 <= j < k ==> s[j] != c
}

/// `k` is the place of the last `c` of `s`.
pub open spec fn is_last(s: Seq<char>, c: char, k: int) -> bool {
    &&& 0 <= k < s.len()
    &&& s[k] == c
    &&& forall|j: int| k < j < s.len() ==> s[j] != c
}

/// What may follow a host: nothing, which means the default port, or `:`
/// and a port number.
pub open spec fn port_suffix(rest: Seq<char>) -> Option<u16> {
    if rest.len() == 0 {
        Some(DEFAULT_PORT)
    } else if rest[0] == ':' {
        parse_port(rest.drop_first())
    } else {
        None
    }
}

/// The host and port that `s` names. `[host]` or `[host]:port` gives the
/// host between the brackets; a text with one `:` gives the host before it
/// and the port after it; a text with no `:`, or with several (a bare IPv6
/// address), is a host on the default port.
pub open spec fn host_port_of(s: Seq<char>) -> Option<(Seq<char>, u16)> {
    if s.len() > 0 && s[0] == '[' {
        if has_char(s, ']') {
            let k = choose|k: int| is_first(s, ']', k);
            match port_suffix(s.subrange(k + 1, s.len() as int)) {
                Some(p) => Some((s.subrange(1, k), p)),
                None => None,
            }
        } else {
            None
        }
    } else if has_char(s, ':') {
        let k = choose|k: int| is_first(s, ':', k);
        if is_last(s, ':', k) {
            match parse_port(s.subrange(k + 1, s.len() as int)) {
                Some(p) => Some((s.subrange(0, k), p)),
                None => None,
            }
        } else {
            Some((s, DEFAULT_PORT))
        }
    } else {
        Some((s, DEFAULT_PORT))
    }
}

proof fn lemma_first_unique(s: Seq<char>, c: char, k: int)
    requires
        is_first(s, c, k),
    ensures
        has_char(s, c),
        (choose|k2: int| is_first(s, c, k2)) == k,
{
    let k2 = choose|k2: int| is_first(s, c, k2);
    assert(is_first(s, c, k2));
    if k2 < k {
        assert(s[k2] != c);
    } else if k < k2 {
        assert(s[k] != c);
    }
}

/// The place of the first `c` of `s`.
fn find_first(s: &str, c: char) -> (r: Option<usize>)
    ensures
        r is None ==> !has_char(s@, c),
        r matches Some(k) ==> is_first(s@, c, k as int),
{
    let n = s.unicode_len();
    let mut i: usize = 0;
    while i < n
        invariant
            0 <= i <= n,
            n == s@.len(),
            forall|j: int| 0 <= j < i ==> s@[j] != c,
        decreases n - i,
    {
        if s.get_char(i) == c {
            return Some(i);
        }
        i = i + 1;
    }
    None
}

/// The place of the last `c` of `s`.
fn find_last(s: &str, c: char) -> (r: Option<usize>)
    ensures
        r is None ==> !has_char(s@, c),
        r matches Some(k) ==> is_last(s@, c, k as int),
{
    let n = s.unicode_len();
    let mut i: usize = n;
    while i > 0
        invariant
            0 <= i <= n,
            n == s@.len(),
            forall|j: int| i <= j < n ==> s@[j] != c,
        decreases i,
    {
        if s.get_char(i - 1) == c {
            return Some(i - 1);
        }
        i = i - 1;
    }
    None
}

proof fn lemma_digits_value_grows(s: Seq<char>, i: int)
    requires
        0 <= i <= s.len(),
        forall|j: int| 0 <= j < s.len() ==> is_digit(#[trigger] s[j]),
    ensures
        0 <= digits_value(s.take(i)) <= digits_value(s),
    decreases s.len() - i,
{
    if i < s.len() {
        lemma_digits_value_grows(s, i + 1);
        assert(s.take(i + 1).drop_last() =~= s.take(i));
        assert(is_digit(s[i]));
    } else {
        assert(s.take(i) =~= s);
        lemma_digits_value_nonneg(s);
    }
}

proof fn lemma_digits_value_nonneg(s: Seq<char>)
    requires
        forall|j: int| 0 <= j < s.len() ==> is_digit(#[trigger] s[j]),
    ensures
        0 <= digits_value(s),
    decreases s.len(),
{
    if s.len() > 0 {
        assert(is_digit(s[s.len() - 1]));
        lemma_digits_value_nonneg(s.drop_last());
    }
}

/// Reads a port number.
pub fn parse_port_str(s: &str) -> (r: Option<u16>)
    ensures
        r == parse_port(s@),
{
    let n = s.unicode_len();
    let mut start: usize = 0;
    if n > 0 && s.get_char(0) == '+' {
        start = 1;
    }
    let ghost d = port_digits(s@);
    assert(d =~= s@.subrange(start as int, n as int));
    if start == n {
        return None;
    }
    let mut acc: u32 = 0;
    let mut i: usize = start;
    while i < n
        invariant
            start <= i <= n,
            n == s@.len(),
            d == s@.subrange(start as int, n as int),
            d == port_digits(s@),
            forall|j: int| 0 <= j < i - start ==> is_digit(#[trigger] d[j]),
            acc as int == digits_value(d.take(i - start)),
            acc <= 65535,
        decreases n - i,
    {
        let c = s.get_char(i);
        assert(d[i - start] == c);
        if c < '0' || c > '9' {
            assert(!is_digit(d[i - start]));
            return None;
        }
        proof {
            assert(d.take(i - start + 1).drop_last() =~= d.take(i - start));
            assert(d.take(i - start + 1).last() == c);
        }
        acc = acc * 10 + (c as u32 - '0' as u32);
        i = i + 1;
        assert(acc as int == digits_value(d.take(i - start)));
        if acc > 65535 {
            proof {
                if all_digits(d) {
                    lemma_digits_value_grows(d, i - start);
                }
            }
            return None;
        }
    }
    assert(d.take(n - start) =~= d);
    Some(acc as u16)
}

/// Splits a server address into host and port, as the text gives them.
pub fn parse_addr(input: &str) -> (r: Option<HostPort>)
    ensures
        match r {
            None => host_port_of(input@) is None,
            Some(hp) => host_port_of(input@) == Some((hp.host@, hp.port)),
        },
{
    let n = input.unicode_len();
    if n > 0 && input.get_char(0) == '[' {
        match find_first(input, ']') {
            None => None,
            Some(k) => {
                proof {
                    lemma_first_unique(input@, ']', k as int);
                }
                let host = input.substring_char(1, k);
                let rest = input.substring_char(k + 1, n);
                let rn = rest.unicode_len();
                if rn == 0 {
                    Some(HostPort { host: host.to_string(), port: DEFAULT_PORT })
                } else if rest.get_char(0) == ':' {
                    let digits = rest.substring_char(1, rn);
                    assert(digits@ =~= rest@.drop_first());
                    match parse_port_str(digits) {
                        Some(p) => Some(HostPort { host: host.to_string(), port: p }),
                        None => None,
                    }
                } else {
                    None
                }
            },
        }
    } else {
        match find_first(input, ':') {
            None => Some(HostPort { host: input.to_string(), port: DEFAULT_PORT }),
            Some(k) => {
                proof {
                    lemma_first_unique(input@, ':', k as int);
                }
                match find_last(input, ':') {
                    Some(k2) => {
                        if k2 == k {
                            let host = input.substring_char(0, k);
                            let port = input.substring_char(k + 1, n);
                            match parse_port_str(port) {
                                Some(p) => Some(HostPort { host: host.to_string(), port: p }),
                                None => None,
                            }
                        } else {
                            assert(!is_last(input@, ':', k as int)) by {
                                assert(input@[k2 as int] == ':');
                            }
                            Some(HostPort { host: input.to_string(), port: DEFAULT_PORT })
                        }
                    },
                    None => None,
                }
            },
        }
    }
}

} // verus!
