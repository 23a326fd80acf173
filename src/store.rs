//! The ledger's line-oriented file format: one record per line,
//! `identity,miss_count,"question text"`, with quotes in the text doubled.

use vstd::prelude::*;
use crate::text::{
    chars_of, string_of, decimal_value, is_u64_decimal, decimal_of, escape, unescape,
    push_decimal, push_escaped, parse_decimal, unescape_range, all_digits, is_digit,
    lemma_decimal_round_trip, lemma_unescape_escape, lemma_escape_keeps_newlines,
};
use crate::ledger::{Ledger, LedgerEntry, ids_distinct, entries_map, owed, lemma_entries_map_first};

verus! {

/// The record line of one entry, without its line break.
pub open spec fn record_line(e: LedgerEntry) -> Seq<char> {
    e.identity@ + seq![','] + decimal_of(e.miss_count as nat) + seq![','] + seq!['"'] + escape(
        e.last_question_text@,
    ) + seq!['"']
}

/// The file text of a sequence of entries: one line per entry with a
/// positive miss count, in order; entries with count zero are left out.
pub open spec fn render_entries(es: Seq<LedgerEntry>) -> Seq<char>
    decreases es.len(),
{
    if es.len() == 0 {
        seq![]
    } else {
        (if es[0].miss_count > 0 {
            record_line(es[0]) + seq!['\n']
        } else {
            seq![]
        }) + render_entries(es.drop_first())
    }
}

/// The position of the first `c` in `s`, or its length if there is none.
pub open spec fn find_char(s: Seq<char>, c: char) -> nat
    decreases s.len(),
{
    if s.len() == 0 {
        0
    } else if s[0] == c {
        0
    } else {
        1 + find_char(s.drop_first(), c)
    }
}

/// The lines of `s`: the text between line breaks; a final line break ends
/// the last line rather than starting an empty one.
pub open spec fn lines_of(s: Seq<char>) -> Seq<Seq<char>>
    decreases s.len(),
{
    if s.len() == 0 {
        seq![]
    } else {
        let k = find_char(s, '\n') as int;
        if k < s.len() {
            seq![s.subrange(0, k)] + lines_of(s.subrange(k + 1, s.len() as int))
        } else {
            seq![s]
        }
    }
}

/// A line without the carriage return that may end it.
pub open spec fn line_body(l: Seq<char>) -> Seq<char> {
    if l.len() > 0 && l.last() == '\r' {
        l.drop_last()
    } else {
        l
    }
}

/// The text field: between a pair of enclosing quotes it is unescaped;
/// without them it is taken as it stands.
pub open spec fn decode_field(f: Seq<char>) -> Seq<char> {
    if f.len() >= 2 && f[0] == '"' && f.last() == '"' {
        unescape(f.subrange(1, f.len() - 1))
    } else {
        f
    }
}

/// What one line records: identity up to the first comma, a decimal miss
/// count up to the second, the text field after it. A line with fewer than
/// two commas or whose count is not a decimal `u64` records nothing.
pub open spec fn parse_record(l: Seq<char>) -> Option<(Seq<char>, nat, Seq<char>)> {
    let b = line_body(l);
    let k1 = find_char(b, ',') as int;
    if k1 >= b.len() {
        None
    } else {
        let r1 = b.subrange(k1 + 1, b.len() as int);
        let k2 = find_char(r1, ',') as int;
        if k2 >= r1.len() {
            None
        } else {
            let cs = r1.subrange(0, k2);
            if is_u64_decimal(cs) {
                Some(
                    (b.subrange(0, k1), decimal_value(cs), decode_field(r1.subrange(k2 + 1, r1.len() as int))),
                )
            } else {
                None
            }
        }
    }
}

/// `m` after the records of `ls`, in order; a later record of an identity
/// replaces an earlier one.
pub open spec fn apply_records(
    m: Map<Seq<char>, (nat, Seq<char>)>,
    ls: Seq<Seq<char>>,
) -> Map<Seq<char>, (nat, Seq<char>)>
    decreases ls.len(),
{
    if ls.len() == 0 {
        m
    } else {
        let m2 = match parse_record(ls[0]) {
            Some(r) => m.insert(r.0, (r.1, r.2)),
            None => m,
        };
        apply_records(m2, ls.drop_first())
    }
}

/// The ledger that a file text holds.
pub open spec fn parsed_map(s: Seq<char>) -> Map<Seq<char>, (nat, Seq<char>)> {
    apply_records(Map::empty(), lines_of(s))
}

pub proof fn lemma_find_char(s: Seq<char>, c: char, k: int)
    requires
        0 <= k <= s.len(),
        forall|j: int| 0 <= j < k ==> s[j] != c,
        k == s.len() || s[k] == c,
    ensures
        find_char(s, c) == k,
    decreases k,
{
    if k > 0 {
        lemma_find_char(s.drop_first(), c, k - 1);
    }
}

/// The first position at or after `lo` and before `hi` that holds `c`, or `hi`.
fn find_from(v: &Vec<char>, c: char, lo: usize, hi: usize) -> (r: usize)
    requires
        lo <= hi <= v@.len(),
    ensures
        lo <= r <= hi,
        find_char(v@.subrange(lo as int, hi as int), c) == r - lo,
{
    let mut i: usize = lo;
    while i < hi && v[i] != c
        invariant
            lo <= i <= hi <= v@.len(),
            forall|j: int| lo <= j < i ==> v@[j] != c,
        decreases hi - i,
    {
        i = i + 1;
    }
    proof {
        let s = v@.subrange(lo as int, hi as int);
        assert forall|j: int| 0 <= j < i - lo implies s[j] != c by {
            assert(s[j] == v@[lo + j]);
        }
        lemma_find_char(s, c, i - lo);
    }
    i
}

/// The characters `v[lo..hi]`.
fn chars_between(v: &Vec<char>, lo: usize, hi: usize) -> (r: Vec<char>)
    requires
        lo <= hi <= v@.len(),
    ensures
        r@ == v@.subrange(lo as int, hi as int),
{
    let mut out: Vec<char> = Vec::new();
    let mut i: usize = lo;
    while i < hi
        invariant
            lo <= i <= hi <= v@.len(),
            out@ == v@.subrange(lo as int, i as int),
        decreases hi - i,
    {
        out.push(v[i]);
        i = i + 1;
        assert(out@ =~= v@.subrange(lo as int, i as int));
    }
    out
}

/// The characters `decode_field(v[lo..hi])`.
fn decode_field_at(v: &Vec<char>, lo: usize, hi: usize) -> (r: Vec<char>)
    requires
        lo <= hi <= v@.len(),
    ensures
        r@ == decode_field(v@.subrange(lo as int, hi as int)),
{
    let ghost f = v@.subrange(lo as int, hi as int);
    if hi - lo >= 2 && v[lo] == '"' && v[hi - 1] == '"' {
        assert(f.subrange(1, f.len() - 1) =~= v@.subrange(lo + 1, hi - 1));
        unescape_range(v, lo + 1, hi - 1)
    } else {
        chars_between(v, lo, hi)
    }
}

/// Reads the record of the line `v[lo..hi]`.
#[verifier::rlimit(40)]
fn parse_record_at(v: &Vec<char>, lo: usize, hi: usize) -> (r: Option<LedgerEntry>)
    requires
        lo <= hi <= v@.len(),
    ensures
        match parse_record(v@.subrange(lo as int, hi as int)) {
            Some(t) => r is Some && r->0.identity@ == t.0 && r->0.miss_count as nat == t.1
                && r->0.last_question_text@ == t.2,
            None => r is None,
        },
{
    let ghost l = v@.subrange(lo as int, hi as int);
    let hb = if hi > lo && v[hi - 1] == '\r' {
        hi - 1
    } else {
        hi
    };
    let ghost b = v@.subrange(lo as int, hb as int);
    assert(line_body(l) =~= b);
    let k1 = find_from(v, ',', lo, hb);
    if k1 == hb {
        return None;
    }
    let ghost r1 = b.subrange(k1 - lo + 1, b.len() as int);
    assert(r1 =~= v@.subrange(k1 + 1, hb as int));
    let k2 = find_from(v, ',', k1 + 1, hb);
    if k2 == hb {
        return None;
    }
    assert(r1.subrange(0, k2 - k1 - 1) =~= v@.subrange(k1 + 1, k2 as int));
    assert(b.subrange(0, k1 - lo) =~= v@.subrange(lo as int, k1 as int));
    let ghost f = r1.subrange(k2 - k1, r1.len() as int);
    assert(f =~= v@.subrange(k2 + 1, hb as int));
    match parse_decimal(v, k1 + 1, k2) {
        None => None,
        Some(count) => {
            let id = chars_between(v, lo, k1);
            let text = decode_field_at(v, k2 + 1, hb);
            Some(
                LedgerEntry {
                    identity: string_of(&id),
                    miss_count: count,
                    last_question_text: string_of(&text),
                },
            )
        },
    }
}

/// The record lines of the entries with a positive miss count, in order.
pub open spec fn owed_lines(es: Seq<LedgerEntry>) -> Seq<Seq<char>>
    decreases es.len(),
{
    if es.len() == 0 {
        seq![]
    } else {
        (if es[0].miss_count > 0 {
            seq![record_line(es[0])]
        } else {
            seq![]
        }) + owed_lines(es.drop_first())
    }
}

/// An entry can be written to the file and read back: its identity holds
/// no comma and no line break, its text no line break.
pub open spec fn storable(e: LedgerEntry) -> bool {
    !e.identity@.contains(',') && !e.identity@.contains('\n') && !e.last_question_text@.contains(
        '\n',
    )
}

proof fn lemma_concat_lacks(a: Seq<char>, b: Seq<char>, c: char)
    requires
        !a.contains(c),
        !b.contains(c),
    ensures
        !(a + b).contains(c),
{
    if (a + b).contains(c) {
        let j = choose|j: int| 0 <= j < (a + b).len() && (a + b)[j] == c;
        if j < a.len() {
            assert(a[j] == c);
        } else {
            assert(b[j - a.len()] == c);
        }
    }
}

proof fn lemma_digits_lack(s: Seq<char>, c: char)
    requires
        all_digits(s),
        !is_digit(c),
    ensures
        !s.contains(c),
{
    if s.contains(c) {
        let j = choose|j: int| 0 <= j < s.len() && s[j] == c;
        assert(is_digit(s[j]));
    }
}

proof fn lemma_record_line_one_line(e: LedgerEntry)
    requires
        storable(e),
    ensures
        !record_line(e).contains('\n'),
{
    lemma_decimal_round_trip(e.miss_count as nat);
    lemma_digits_lack(decimal_of(e.miss_count as nat), '\n');
    lemma_escape_keeps_newlines(e.last_question_text@);
    let comma = seq![','];
    let quote = seq!['"'];
    assert(!comma.contains('\n')) by {
        if comma.contains('\n') {
            assert(comma[0] == ',');
        }
    }
    assert(!quote.contains('\n')) by {
        if quote.contains('\n') {
            assert(quote[0] == '"');
        }
    }
    let a1 = e.identity@ + comma;
    lemma_concat_lacks(e.identity@, comma, '\n');
    let a2 = a1 + decimal_of(e.miss_count as nat);
    lemma_concat_lacks(a1, decimal_of(e.miss_count as nat), '\n');
    let a3 = a2 + comma;
    lemma_concat_lacks(a2, comma, '\n');
    let a4 = a3 + quote;
    lemma_concat_lacks(a3, quote, '\n');
    let a5 = a4 + escape(e.last_question_text@);
    lemma_concat_lacks(a4, escape(e.last_question_text@), '\n');
    lemma_concat_lacks(a5, quote, '\n');
}

proof fn lemma_lines_of_line(l: Seq<char>, rest: Seq<char>)
    requires
        !l.contains('\n'),
    ensures
        lines_of(l + seq!['\n'] + rest) == seq![l] + lines_of(rest),
{
    let s = l + seq!['\n'] + rest;
    assert forall|j: int| 0 <= j < l.len() implies s[j] != '\n' by {
        assert(s[j] == l[j]);
        if l[j] == '\n' {
            assert(l.contains('\n'));
        }
    }
    lemma_find_char(s, '\n', l.len() as int);
    assert(s.subrange(0, l.len() as int) =~= l);
    assert(s.subrange(l.len() as int + 1, s.len() as int) =~= rest);
}

proof fn lemma_lines_of_render(es: Seq<LedgerEntry>)
    requires
        forall|i: int| 0 <= i < es.len() ==> storable(#[trigger] es[i]),
    ensures
        lines_of(render_entries(es)) == owed_lines(es),
    decreases es.len(),
{
    if es.len() == 0 {
        assert(lines_of(Seq::<char>::empty()) =~= Seq::<Seq<char>>::empty());
    } else {
        let rest = es.drop_first();
        assert forall|i: int| 0 <= i < rest.len() implies storable(#[trigger] rest[i]) by {
            assert(rest[i] == es[i + 1]);
        }
        lemma_lines_of_render(rest);
        assert(storable(es[0]));
        if es[0].miss_count > 0 {
            lemma_record_line_one_line(es[0]);
            lemma_lines_of_line(record_line(es[0]), render_entries(rest));
            assert(render_entries(es) =~= record_line(es[0]) + seq!['\n'] + render_entries(rest));
        } else {
            assert(render_entries(es) =~= render_entries(rest));
            assert(owed_lines(es) =~= owed_lines(rest));
        }
    }
}

proof fn lemma_parse_record_line(e: LedgerEntry)
    requires
        storable(e),
    ensures
        parse_record(record_line(e)) == Some(
            (e.identity@, e.miss_count as nat, e.last_question_text@),
        ),
{
    let id = e.identity@;
    let d = decimal_of(e.miss_count as nat);
    let esc = escape(e.last_question_text@);
    let l = record_line(e);
    lemma_decimal_round_trip(e.miss_count as nat);
    lemma_unescape_escape(e.last_question_text@);
    assert(line_body(l) == l);
    assert forall|j: int| 0 <= j < id.len() implies l[j] != ',' by {
        assert(l[j] == id[j]);
        if id[j] == ',' {
            assert(id.contains(','));
        }
    }
    lemma_find_char(l, ',', id.len() as int);
    let r1 = l.subrange(id.len() as int + 1, l.len() as int);
    assert(r1 =~= d + seq![','] + seq!['"'] + esc + seq!['"']);
    assert forall|j: int| 0 <= j < d.len() implies r1[j] != ',' by {
        assert(r1[j] == d[j]);
        assert(is_digit(d[j]));
    }
    lemma_find_char(r1, ',', d.len() as int);
    assert(r1.subrange(0, d.len() as int) =~= d);
    assert(l.subrange(0, id.len() as int) =~= id);
    let f = r1.subrange(d.len() as int + 1, r1.len() as int);
    assert(f =~= seq!['"'] + esc + seq!['"']);
    assert(f.subrange(1, f.len() - 1) =~= esc);
}

proof fn lemma_apply_owed_lines(m: Map<Seq<char>, (nat, Seq<char>)>, es: Seq<LedgerEntry>)
    requires
        ids_distinct(es),
        forall|i: int| 0 <= i < es.len() ==> storable(#[trigger] es[i]),
    ensures
        apply_records(m, owed_lines(es)) == m.union_prefer_right(owed(entries_map(es))),
    decreases es.len(),
{
    if es.len() == 0 {
        assert(owed(entries_map(es)) =~= Map::<Seq<char>, (nat, Seq<char>)>::empty());
        assert(m.union_prefer_right(Map::empty()) =~= m);
    } else {
        let rest = es.drop_first();
        let e0 = es[0];
        let k0 = e0.identity@;
        let v0 = (e0.miss_count as nat, e0.last_question_text@);
        assert forall|i: int| 0 <= i < rest.len() implies storable(#[trigger] rest[i]) by {
            assert(rest[i] == es[i + 1]);
        }
        lemma_entries_map_first(es);
        let mr = entries_map(rest);
        assert(storable(e0));
        if e0.miss_count > 0 {
            lemma_parse_record_line(e0);
            let ls = owed_lines(es);
            assert(ls =~= seq![record_line(e0)] + owed_lines(rest));
            assert(ls.drop_first() =~= owed_lines(rest));
            lemma_apply_owed_lines(m.insert(k0, v0), rest);
            assert(owed(entries_map(es)) =~= owed(mr).insert(k0, v0));
            assert(m.insert(k0, v0).union_prefer_right(owed(mr)) =~= m.union_prefer_right(
                owed(mr).insert(k0, v0),
            ));
        } else {
            assert(owed_lines(es) =~= owed_lines(rest));
            lemma_apply_owed_lines(m, rest);
            assert(owed(entries_map(es)) =~= owed(mr));
        }
    }
}

/// Saving a ledger and loading the saved text gives back exactly its
/// entries with a positive miss count: zero-count entries never reappear.
/// This holds for every entry whose identity has no comma or line break and
/// whose text has no line break.
pub proof fn lemma_save_load(l: Ledger)
    requires
        l.wf(),
        forall|i: int| 0 <= i < l.entries@.len() ==> storable(#[trigger] l.entries@[i]),
    ensures
        parsed_map(render_entries(l.entries@)) == owed(l@),
{
    lemma_lines_of_render(l.entries@);
    lemma_apply_owed_lines(Map::empty(), l.entries@);
    assert(Map::<Seq<char>, (nat, Seq<char>)>::empty().union_prefer_right(owed(l@)) =~= owed(l@));
}

impl Ledger {
    /// The file text of the ledger: one record line per entry with a
    /// positive miss count, each ended by a line break.
    pub fn render(&self) -> (r: String)
        ensures
            r@ == render_entries(self.entries@),
    {
        let mut out: Vec<char> = Vec::new();
        let mut i: usize = 0;
        let ghost es = self.entries@;
        assert(es.subrange(0, es.len() as int) =~= es);
        while i < self.entries.len()
            invariant
                i <= es.len(),
                es == self.entries@,
                out@ + render_entries(es.subrange(i as int, es.len() as int)) == render_entries(es),
            decreases es.len() - i,
        {
            let ghost before = out@;
            let ghost rest = es.subrange(i as int, es.len() as int);
            assert(rest.drop_first() =~= es.subrange(i + 1, es.len() as int));
            let e = &self.entries[i];
            if e.miss_count > 0 {
                let mut id = chars_of(e.identity.as_str());
                out.append(&mut id);
                out.push(',');
                push_decimal(&mut out, e.miss_count);
                out.push(',');
                out.push('"');
                let t = chars_of(e.last_question_text.as_str());
                push_escaped(&mut out, &t);
                out.push('"');
                out.push('\n');
                assert(out@ =~= before + record_line(*e) + seq!['\n']);
            }
            i = i + 1;
            assert(out@ + render_entries(es.subrange(i as int, es.len() as int)) =~= render_entries(es));
        }
        assert(es.subrange(i as int, es.len() as int) =~= Seq::<LedgerEntry>::empty());
        assert(out@ =~= render_entries(es));
        string_of(&out)
    }

    /// The ledger that the file text `content` holds. Lines that do not hold
    /// a record are skipped; a later record of an identity replaces an
    /// earlier one.
    pub fn parse(content: &str) -> (r: Ledger)
        ensures
            r.wf(),
            r@ == parsed_map(content@),
    {
        let v = chars_of(content);
        let mut ledger = Ledger::new();
        let mut i: usize = 0;
        let ghost s = v@;
        assert(s.subrange(0, s.len() as int) =~= s);
        while i < v.len()
            invariant
                i <= s.len(),
                s == v@,
                s == content@,
                ledger.wf(),
                apply_records(ledger@, lines_of(s.subrange(i as int, s.len() as int))) == parsed_map(s),
            decreases s.len() - i,
        {
            let ghost rest = s.subrange(i as int, s.len() as int);
            let k = find_from(&v, '\n', i, v.len());
            let rec = parse_record_at(&v, i, k);
            assert(rest.subrange(0, k - i) =~= s.subrange(i as int, k as int));
            let ghost ls = lines_of(rest);
            if k < v.len() {
                assert(rest.subrange(k - i + 1, rest.len() as int) =~= s.subrange(k + 1, s.len() as int));
            } else {
                assert(rest.subrange(0, k - i) =~= rest);
            }
            assert(ls[0] == s.subrange(i as int, k as int));
            match rec {
                Some(e) => {
                    ledger.insert(e.identity, e.miss_count, e.last_question_text);
                },
                None => {},
            }
            if k < v.len() {
                assert(ls.drop_first() =~= lines_of(s.subrange(k + 1, s.len() as int)));
                i = k + 1;
            } else {
                assert(ls.drop_first() =~= Seq::<Seq<char>>::empty());
                assert(s.subrange(k as int, s.len() as int) =~= Seq::<char>::empty());
                i = k;
            }
        }
        assert(s.subrange(i as int, s.len() as int) =~= Seq::<char>::empty());
        ledger
    }
}

} // verus!
