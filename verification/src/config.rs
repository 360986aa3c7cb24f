//! The configuration file: an INI-style text with `[section "sub"]`
//! headers and `key = value` lines, read into a flat list of
//! (section, key, value) assignments; lookup returns the first match.

use crate::bytes::{bytes_eq, find_byte, find_pos, lines_of, split_lines, subvec};
use crate::lits::{quote_mark, quote_mark_bytes, remote_section_open, remote_section_open_bytes, url_key, url_key_bytes};
use crate::store::copy_bytes;
use vstd::prelude::*;

verus! {

/// Is `c` ASCII whitespace?
pub open spec fn is_ws(c: u8) -> bool {
    c == 32 || c == 9 || c == 10 || c == 13
}

/// `s` without leading whitespace.
pub open spec fn trim_start_spec(s: Seq<u8>) -> Seq<u8>
    decreases s.len(),
{
    if s.len() > 0 && is_ws(s[0]) {
        trim_start_spec(s.drop_first())
    } else {
        s
    }
}

/// `s` without trailing whitespace.
pub open spec fn trim_end_spec(s: Seq<u8>) -> Seq<u8>
    decreases s.len(),
{
    if s.len() > 0 && is_ws(s.last()) {
        trim_end_spec(s.drop_last())
    } else {
        s
    }
}

/// `s` without surrounding whitespace.
pub open spec fn trim_spec(s: Seq<u8>) -> Seq<u8> {
    trim_end_spec(trim_start_spec(s))
}

proof fn lemma_trim_start_at(s: Seq<u8>, a: int)
    requires
        0 <= a <= s.len(),
        forall|j: int| 0 <= j < a ==> is_ws(#[trigger] s[j]),
        a < s.len() ==> !is_ws(s[a]),
    ensures
        trim_start_spec(s) == s.skip(a),
    decreases a,
{
    if a == 0 {
        assert(s.skip(0) =~= s);
    } else {
        assert(is_ws(s[0]));
        assert(s.drop_first() =~= s.skip(1));
        let t = s.skip(1);
        assert forall|j: int| 0 <= j < a - 1 implies is_ws(#[trigger] t[j]) by {
            assert(t[j] == s[j + 1]);
        }
        if a - 1 < t.len() {
            assert(t[a - 1] == s[a]);
        }
        lemma_trim_start_at(t, a - 1);
        assert(t.skip(a - 1) =~= s.skip(a));
    }
}

proof fn lemma_trim_end_at(s: Seq<u8>, b: int)
    requires
        0 <= b <= s.len(),
        forall|j: int| b <= j < s.len() ==> is_ws(#[trigger] s[j]),
        b > 0 ==> !is_ws(s[b - 1]),
    ensures
        trim_end_spec(s) == s.take(b),
    decreases s.len() - b,
{
    if b == s.len() {
        assert(s.take(b) =~= s);
    } else {
        assert(is_ws(s.last()));
        assert(s.drop_last() =~= s.take(s.len() - 1));
        let t = s.take(s.len() - 1);
        assert forall|j: int| b <= j < t.len() implies is_ws(#[trigger] t[j]) by {
            assert(t[j] == s[j]);
        }
        if b > 0 {
            assert(t[b - 1] == s[b - 1]);
        }
        lemma_trim_end_at(t, b);
        assert(t.take(b) =~= s.take(b));
    }
}

/// `s` with surrounding ASCII whitespace removed.
pub fn trim_bytes(s: &[u8]) -> (r: Vec<u8>)
    ensures
        r@ == trim_spec(s@),
{
    let mut a: usize = 0;
    while a < s.len() && (s[a] == 32 || s[a] == 9 || s[a] == 10 || s[a] == 13)
        invariant
            a <= s.len(),
            forall|j: int| 0 <= j < a ==> is_ws(#[trigger] s@[j]),
        decreases s.len() - a,
    {
        a = a + 1;
    }
    proof {
        lemma_trim_start_at(s@, a as int);
    }
    let mut b: usize = s.len();
    while b > a && (s[b - 1] == 32 || s[b - 1] == 9 || s[b - 1] == 10 || s[b - 1] == 13)
        invariant
            a <= b <= s.len(),
            forall|j: int| 0 <= j < a ==> is_ws(#[trigger] s@[j]),
            forall|j: int| b <= j < s.len() ==> is_ws(#[trigger] s@[j]),
        decreases b,
    {
        b = b - 1;
    }
    let r = subvec(s, a, b);
    proof {
        let t = s@.skip(a as int);
        assert forall|j: int| b - a <= j < t.len() implies is_ws(#[trigger] t[j]) by {
            assert(t[j] == s@[j + a]);
        }
        if b > a {
            assert(t[b - a - 1] == s@[b as int - 1]);
        }
        lemma_trim_end_at(t, b - a);
        assert(t.take(b - a) =~= s@.subrange(a as int, b as int));
    }
    r
}

/// Is `c` a square bracket?
pub open spec fn is_bracket(c: u8) -> bool {
    c == 91 || c == 93
}

/// `s` without leading brackets.
pub open spec fn brtrim_start_spec(s: Seq<u8>) -> Seq<u8>
    decreases s.len(),
{
    if s.len() > 0 && is_bracket(s[0]) {
        brtrim_start_spec(s.drop_first())
    } else {
        s
    }
}

/// `s` without trailing brackets.
pub open spec fn brtrim_end_spec(s: Seq<u8>) -> Seq<u8>
    decreases s.len(),
{
    if s.len() > 0 && is_bracket(s.last()) {
        brtrim_end_spec(s.drop_last())
    } else {
        s
    }
}

/// `s` with surrounding brackets removed.
pub open spec fn brtrim_spec(s: Seq<u8>) -> Seq<u8> {
    brtrim_end_spec(brtrim_start_spec(s))
}

proof fn lemma_brtrim_start_at(s: Seq<u8>, a: int)
    requires
        0 <= a <= s.len(),
        forall|j: int| 0 <= j < a ==> is_bracket(#[trigger] s[j]),
        a < s.len() ==> !is_bracket(s[a]),
    ensures
        brtrim_start_spec(s) == s.skip(a),
    decreases a,
{
    if a == 0 {
        assert(s.skip(0) =~= s);
    } else {
        assert(s.drop_first() =~= s.skip(1));
        let t = s.skip(1);
        assert forall|j: int| 0 <= j < a - 1 implies is_bracket(#[trigger] t[j]) by {
            assert(t[j] == s[j + 1]);
        }
        if a - 1 < t.len() {
            assert(t[a - 1] == s[a]);
        }
        lemma_brtrim_start_at(t, a - 1);
        assert(t.skip(a - 1) =~= s.skip(a));
    }
}

proof fn lemma_brtrim_end_at(s: Seq<u8>, b: int)
    requires
        0 <= b <= s.len(),
        forall|j: int| b <= j < s.len() ==> is_bracket(#[trigger] s[j]),
        b > 0 ==> !is_bracket(s[b - 1]),
    ensures
        brtrim_end_spec(s) == s.take(b),
    decreases s.len() - b,
{
    if b == s.len() {
        assert(s.take(b) =~= s);
    } else {
        assert(s.drop_last() =~= s.take(s.len() - 1));
        let t = s.take(s.len() - 1);
        assert forall|j: int| b <= j < t.len() implies is_bracket(#[trigger] t[j]) by {
            assert(t[j] == s[j]);
        }
        if b > 0 {
            assert(t[b - 1] == s[b - 1]);
        }
        lemma_brtrim_end_at(t, b);
        assert(t.take(b) =~= s.take(b));
    }
}

fn brtrim_bytes(s: &[u8]) -> (r: Vec<u8>)
    ensures
        r@ == brtrim_spec(s@),
{
    let mut a: usize = 0;
    while a < s.len() && (s[a] == 91 || s[a] == 93)
        invariant
            a <= s.len(),
            forall|j: int| 0 <= j < a ==> is_bracket(#[trigger] s@[j]),
        decreases s.len() - a,
    {
        a = a + 1;
    }
    proof {
        lemma_brtrim_start_at(s@, a as int);
    }
    let mut b: usize = s.len();
    while b > a && (s[b - 1] == 91 || s[b - 1] == 93)
        invariant
            a <= b <= s.len(),
            forall|j: int| 0 <= j < a ==> is_bracket(#[trigger] s@[j]),
            forall|j: int| b <= j < s.len() ==> is_bracket(#[trigger] s@[j]),
        decreases b,
    {
        b = b - 1;
    }
    let r = subvec(s, a, b);
    proof {
        let t = s@.skip(a as int);
        assert forall|j: int| b - a <= j < t.len() implies is_bracket(#[trigger] t[j]) by {
            assert(t[j] == s@[j + a]);
        }
        if b > a {
            assert(t[b - a - 1] == s@[b as int - 1]);
        }
        lemma_brtrim_end_at(t, b - a);
        assert(t.take(b - a) =~= s@.subrange(a as int, b as int));
    }
    r
}

/// One configuration assignment.
pub struct ConfigEntry {
    pub section: Vec<u8>,
    pub key: Vec<u8>,
    pub value: Vec<u8>,
}

/// The mathematical value of an assignment.
pub ghost struct ConfigEntryV {
    pub section: Seq<u8>,
    pub key: Seq<u8>,
    pub value: Seq<u8>,
}

impl View for ConfigEntry {
    type V = ConfigEntryV;

    open spec fn view(&self) -> ConfigEntryV {
        ConfigEntryV { section: self.section@, key: self.key@, value: self.value@ }
    }
}

/// The assignments denoted by the lines from `i` on, under the current
/// section `cur`: a bracketed line opens a section, a line with `=`
/// inside a section assigns, anything else is skipped.
pub open spec fn cfg_go(ls: Seq<Seq<u8>>, i: int, cur: Seq<u8>) -> Seq<ConfigEntryV>
    decreases ls.len() - i,
{
    if i < 0 || i >= ls.len() {
        Seq::empty()
    } else {
        let l = trim_spec(ls[i]);
        if l.len() >= 2 && l[0] == 91 && l[l.len() - 1] == 93 {
            cfg_go(ls, i + 1, brtrim_spec(l))
        } else {
            let eq = find_pos(l, 61);
            if 0 <= eq < l.len() && cur.len() > 0 {
                seq![
                    ConfigEntryV {
                        section: cur,
                        key: trim_spec(l.take(eq)),
                        value: trim_spec(l.skip(eq + 1)),
                    },
                ] + cfg_go(ls, i + 1, cur)
            } else {
                cfg_go(ls, i + 1, cur)
            }
        }
    }
}

/// The configuration: a flat assignment list, in file order.
pub struct Config {
    pub data: Vec<ConfigEntry>,
}

/// The first value under (section, key), if any.
pub open spec fn find_cfg(
    data: Seq<ConfigEntryV>,
    section: Seq<u8>,
    key: Seq<u8>,
) -> Option<Seq<u8>>
    decreases data.len(),
{
    if data.len() == 0 {
        None
    } else if data[0].section == section && data[0].key == key {
        Some(data[0].value)
    } else {
        find_cfg(data.drop_first(), section, key)
    }
}

impl Config {
    /// An empty configuration.
    pub fn new() -> (r: Config)
        ensures
            r.data@.len() == 0,
    {
        Config { data: Vec::new() }
    }

    /// Parse INI-style text into the assignment list it denotes.
    pub fn parse(content: &[u8]) -> (r: Config)
        ensures
            r.data@.map_values(|e: ConfigEntry| e@) == cfg_go(lines_of(content@), 0, Seq::empty()),
    {
        let lines = split_lines(content);
        let ghost ls = lines@.map_values(|v: Vec<u8>| v@);
        let mut data: Vec<ConfigEntry> = Vec::new();
        let mut cur: Vec<u8> = Vec::new();
        let mut have_section = false;
        let mut i: usize = 0;
        proof {
            assert(data@.map_values(|e: ConfigEntry| e@) =~= Seq::<ConfigEntryV>::empty());
            assert(cur@ =~= Seq::<u8>::empty());
        }
        while i < lines.len()
            invariant
                i <= lines@.len(),
                ls == lines@.map_values(|v: Vec<u8>| v@),
                !have_section ==> cur@.len() == 0,
                have_section ==> cur@.len() > 0,
                cfg_go(ls, 0, Seq::empty()) == data@.map_values(|e: ConfigEntry| e@) + cfg_go(
                    ls,
                    i as int,
                    cur@,
                ),
            decreases lines@.len() - i,
        {
            let l = trim_bytes(lines[i].as_slice());
            proof {
                assert(ls[i as int] == lines@[i as int]@);
            }
            if l.len() >= 2 && l[0] == 91 && l[l.len() - 1] == 93 {
                let name = brtrim_bytes(l.as_slice());
                if name.len() > 0 {
                    cur = name;
                    have_section = true;
                } else {
                    cur = name;
                    have_section = false;
                }
            } else {
                match find_byte(l.as_slice(), 0, 61) {
                    Some(eq) => {
                        proof {
                            crate::bytes::lemma_find_pos_from(l@, 61, 0, eq as int);
                            assert(l@.skip(0) =~= l@);
                        }
                        if have_section {
                            let key = trim_bytes(subvec(l.as_slice(), 0, eq).as_slice());
                            let value = trim_bytes(
                                subvec(l.as_slice(), eq + 1, l.len()).as_slice(),
                            );
                            proof {
                                assert(l@.take(eq as int) =~= l@.subrange(0, eq as int));
                                assert(l@.skip(eq as int + 1) =~= l@.subrange(
                                    eq as int + 1,
                                    l@.len() as int,
                                ));
                            }
                            let ghost d0 = data@;
                            let ghost pm0 = data@.map_values(|e: ConfigEntry| e@);
                            data.push(
                                ConfigEntry { section: copy_bytes(cur.as_slice()), key, value },
                            );
                            proof {
                                let pm = data@.map_values(|e: ConfigEntry| e@);
                                assert(pm.len() == pm0.len() + 1);
                                assert forall|x: int| 0 <= x < pm0.len() implies #[trigger] pm[x]
                                    == pm0[x] by {
                                    assert(data@[x] == d0[x]);
                                }
                            }
                        }
                    },
                    None => {
                        proof {
                            crate::bytes::lemma_find_pos_none(l@, 61, 0);
                            assert(l@.skip(0) =~= l@);
                            crate::bytes::lemma_find_pos(l@, 61);
                        }
                    },
                }
            }
            proof {
                assert(cfg_go(ls, 0, Seq::empty()) =~= data@.map_values(|e: ConfigEntry| e@)
                    + cfg_go(ls, i + 1, cur@));
            }
            i = i + 1;
        }
        Config { data }
    }

    /// The URL of the remote `remote_name`: the first `url` assignment
    /// of the section `remote "NAME"`.
    pub fn get_remote_url(&self, remote_name: &[u8]) -> (r: Option<Vec<u8>>)
        ensures
            match r {
                Some(v) => find_cfg(
                    self.data@.map_values(|e: ConfigEntry| e@),
                    remote_section_open() + remote_name@ + quote_mark(),
                    url_key(),
                ) == Some(v@),
                None => find_cfg(
                    self.data@.map_values(|e: ConfigEntry| e@),
                    remote_section_open() + remote_name@ + quote_mark(),
                    url_key(),
                ) is None,
            },
    {
        let mut section = remote_section_open_bytes();
        crate::bytes::append_bytes(&mut section, remote_name);
        let q = quote_mark_bytes();
        crate::bytes::append_bytes(&mut section, q.as_slice());
        let key = url_key_bytes();
        let ghost m = self.data@.map_values(|e: ConfigEntry| e@);
        let mut i: usize = 0;
        proof {
            assert(m.skip(0) =~= m);
        }
        while i < self.data.len()
            invariant
                i <= self.data@.len(),
                m == self.data@.map_values(|e: ConfigEntry| e@),
                section@ == remote_section_open() + remote_name@ + quote_mark(),
                key@ == url_key(),
                find_cfg(m, section@, key@) == find_cfg(m.skip(i as int), section@, key@),
            decreases self.data@.len() - i,
        {
            if bytes_eq(self.data[i].section.as_slice(), section.as_slice()) && bytes_eq(
                self.data[i].key.as_slice(),
                key.as_slice(),
            ) {
                proof {
                    assert(m.skip(i as int)[0] == m[i as int]);
                }
                return Some(copy_bytes(self.data[i].value.as_slice()));
            }
            proof {
                assert(m.skip(i as int).drop_first() =~= m.skip(i as int + 1));
                assert(m.skip(i as int)[0] == m[i as int]);
            }
            i = i + 1;
        }
        None
    }
}


/// The configuration text that registers a remote: a blank line, a
/// `[remote "NAME"]` header, and an indented `url = URL` assignment,
/// appended verbatim to the configuration file.
pub fn remote_config_section(name: &[u8], url: &[u8]) -> (r: Vec<u8>)
    ensures
        r@ == seq![10u8, 91u8] + remote_section_open() + name@ + seq![34u8, 93u8, 10u8, 9u8]
            + url_key() + seq![32u8, 61u8, 32u8] + url@ + seq![10u8],
{
    let mut out: Vec<u8> = vec![10u8, 91u8];
    let open = remote_section_open_bytes();
    crate::bytes::append_bytes(&mut out, open.as_slice());
    crate::bytes::append_bytes(&mut out, name);
    out.push(34);
    out.push(93);
    out.push(10);
    out.push(9);
    let key = url_key_bytes();
    crate::bytes::append_bytes(&mut out, key.as_slice());
    out.push(32);
    out.push(61);
    out.push(32);
    crate::bytes::append_bytes(&mut out, url);
    out.push(10);
    proof {
        assert(out@ =~= seq![10u8, 91u8] + remote_section_open() + name@ + seq![
            34u8,
            93u8,
            10u8,
            9u8,
        ] + url_key() + seq![32u8, 61u8, 32u8] + url@ + seq![10u8]);
    }
    out
}

} // verus!
