use rand::Rng;
use vstd::prelude::*;
use crate::util::{decimal_text, push_decimal};
use crate::text::{
    chars_of, count_before, find_char, lemma_count_before_bound, lemma_split_nonempty, lines,
    next_line, parse_decimal, parse_unsigned, split, substring, trim, trim_range,
};

verus! {

/// What a key of the table resolves to, as a value.
pub enum TargetView {
    Single(Seq<char>),
    Weighted(Seq<(Seq<char>, u32)>),
}

/// Why a line of the table source was rejected.
#[derive(Debug, Clone, Copy, PartialEq, Eq)]
pub enum ParseErrorKind {
    MissingDelim(char),
    InvalidWeight,
    InvalidPath,
    InvalidKey,
}

/// A rejected table source: the kind of fault and the line (from 1) it is on.
#[derive(Debug, Clone, Copy, PartialEq, Eq)]
pub struct RequestMapParseError {
    pub line_num: usize,
    pub kind: ParseErrorKind,
}

/// One candidate of a weighted entry.
#[derive(Debug, Clone)]
pub struct RandPath {
    pub path: String,
    pub weight: u32,
}

/// What a key maps to: one path, or weighted candidates.
#[derive(Debug, Clone)]
pub enum PathEntry {
    Single(String),
    Weighted(Vec<RandPath>),
}

pub open spec fn candidates_view(v: Seq<RandPath>) -> Seq<(Seq<char>, u32)> {
    v.map_values(|r: RandPath| (r.path@, r.weight))
}

impl PathEntry {
    pub open spec fn view(&self) -> TargetView {
        match self {
            PathEntry::Single(p) => TargetView::Single(p@),
            PathEntry::Weighted(v) => TargetView::Weighted(candidates_view(v@)),
        }
    }
}

/// Sum of the candidates' weights.
pub open spec fn weight_sum(ws: Seq<(Seq<char>, u32)>) -> nat
    decreases ws.len(),
{
    if ws.len() == 0 {
        0
    } else {
        weight_sum(ws.drop_last()) + ws.last().1 as nat
    }
}

/// Candidate `i` is the one a draw selects: the draw falls in its share.
pub open spec fn selects(ws: Seq<(Seq<char>, u32)>, draw: nat, i: int) -> bool {
    0 <= i < ws.len() && weight_sum(ws.take(i)) <= draw < weight_sum(ws.take(i + 1))
}

/// One `path ' weight` candidate.
pub open spec fn parse_candidate(p: Seq<char>) -> Result<(Seq<char>, u32), ParseErrorKind> {
    let q = count_before(p, '\'');
    if q >= p.len() {
        Err(ParseErrorKind::MissingDelim('\''))
    } else {
        match parse_unsigned(trim(p.skip(q + 1 as int)), 0xFFFF_FFFF) {
            None => Err(ParseErrorKind::InvalidWeight),
            Some(w) => Ok((trim(p.take(q as int)), w as u32)),
        }
    }
}

/// The candidates of a comma-separated list, or the first fault among them.
pub open spec fn parse_candidates(ps: Seq<Seq<char>>) -> Result<
    Seq<(Seq<char>, u32)>,
    ParseErrorKind,
>
    decreases ps.len(),
{
    if ps.len() == 0 {
        Ok(seq![])
    } else {
        match parse_candidates(ps.drop_last()) {
            Err(e) => Err(e),
            Ok(v) => match parse_candidate(ps.last()) {
                Err(e) => Err(e),
                Ok(c) => Ok(v.push(c)),
            },
        }
    }
}

/// A weighted line for key `k`, from its parsed candidates.
pub open spec fn weighted_line(
    k: Seq<char>,
    cands: Result<Seq<(Seq<char>, u32)>, ParseErrorKind>,
) -> Result<(Seq<char>, TargetView), ParseErrorKind> {
    match cands {
        Err(x) => Err(x),
        Ok(ws) => if weight_sum(ws) == 0 {
            Err(ParseErrorKind::InvalidWeight)
        } else {
            Ok((k, TargetView::Weighted(ws)))
        },
    }
}

/// One line of the table source: `key = target`.
pub open spec fn parse_line(l: Seq<char>) -> Result<(Seq<char>, TargetView), ParseErrorKind> {
    let e = count_before(l, '=');
    if e >= l.len() {
        Err(ParseErrorKind::MissingDelim('='))
    } else {
        let k = trim(l.take(e as int));
        let v = trim(l.skip(e + 1 as int));
        if v.len() == 0 {
            Err(ParseErrorKind::InvalidPath)
        } else if k.len() == 0 {
            Err(ParseErrorKind::InvalidKey)
        } else if split(v, ',').len() > 1 {
            weighted_line(k, parse_candidates(split(v, ',')))
        } else {
            Ok((k, TargetView::Single(v)))
        }
    }
}

/// The table the lines describe, a later line for a key replacing an earlier
/// one; or the number (from 1) and fault of the first line rejected.
pub open spec fn parse_table(ls: Seq<Seq<char>>) -> Result<
    Map<Seq<char>, TargetView>,
    (nat, ParseErrorKind),
>
    decreases ls.len(),
{
    if ls.len() == 0 {
        Ok(Map::empty())
    } else {
        match parse_table(ls.drop_last()) {
            Err(e) => Err(e),
            Ok(m) => match parse_line(ls.last()) {
                Err(k) => Err((ls.len(), k)),
                Ok((key, t)) => Ok(m.insert(key, t)),
            },
        }
    }
}

/// A table is well formed when every weighted entry has a positive total weight.
pub open spec fn valid_target(t: TargetView) -> bool {
    match t {
        TargetView::Single(_) => true,
        TargetView::Weighted(ws) => weight_sum(ws) > 0,
    }
}

/// The listing of candidates: `path'weight ` for each.
pub open spec fn candidates_text(ws: Seq<(Seq<char>, u32)>) -> Seq<char>
    decreases ws.len(),
{
    if ws.len() == 0 {
        seq![]
    } else {
        candidates_text(ws.drop_last()) + ws.last().0 + seq!['\''] + decimal_text(
            ws.last().1 as nat,
        ) + seq![' ']
    }
}

/// The line listing one entry of the table.
pub open spec fn entry_text(k: Seq<char>, t: TargetView) -> Seq<char> {
    k + seq![' ', '-', '>', ' '] + match t {
        TargetView::Single(p) => p,
        TargetView::Weighted(ws) => candidates_text(ws),
    } + seq!['\n']
}

/// The lines listing the given entries, in order.
pub open spec fn listing_text(es: Seq<(Seq<char>, TargetView)>) -> Seq<char>
    decreases es.len(),
{
    if es.len() == 0 {
        seq![]
    } else {
        listing_text(es.drop_last()) + entry_text(es.last().0, es.last().1)
    }
}

/// Static table from request keys to physical paths, some weighted.
pub struct RequestMap {
    entries: Vec<(String, PathEntry)>,
    table: Ghost<Map<Seq<char>, TargetView>>,
}

proof fn lemma_weight_sum_bound(ws: Seq<(Seq<char>, u32)>)
    ensures
        weight_sum(ws) <= ws.len() * 0xFFFF_FFFF,
    decreases ws.len(),
{
    if ws.len() > 0 {
        lemma_weight_sum_bound(ws.drop_last());
    }
}

/// Total weight of the candidates.
pub fn total_weight(cands: &Vec<RandPath>) -> (r: u128)
    ensures
        r == weight_sum(candidates_view(cands@)),
{
    let ghost ws = candidates_view(cands@);
    let mut total: u128 = 0;
    let mut i: usize = 0;
    while i < cands.len()
        invariant
            ws == candidates_view(cands@),
            i <= cands@.len(),
            total == weight_sum(ws.take(i as int)),
        decreases cands@.len() - i,
    {
        proof {
            assert(ws.take(i + 1).drop_last() == ws.take(i as int));
            lemma_weight_sum_bound(ws.take(i + 1));
        }
        total = total + cands[i].weight as u128;
        i = i + 1;
    }
    assert(ws.take(i as int) == ws);
    total
}

/// The candidate a draw in `[0, total weight)` selects: walking the list,
/// the first whose weight exceeds what is left of the draw.
pub fn pick_weighted(cands: &Vec<RandPath>, draw: u128) -> (i: usize)
    requires
        draw < weight_sum(candidates_view(cands@)),
    ensures
        selects(candidates_view(cands@), draw as nat, i as int),
{
    let ghost ws = candidates_view(cands@);
    let mut rem = draw;
    let mut i: usize = 0;
    while i < cands.len()
        invariant
            ws == candidates_view(cands@),
            i <= cands@.len(),
            draw < weight_sum(ws),
            weight_sum(ws.take(i as int)) <= draw,
            rem == draw - weight_sum(ws.take(i as int)),
        decreases cands@.len() - i,
    {
        assert(ws.take(i + 1).drop_last() == ws.take(i as int));
        if rem < cands[i].weight as u128 {
            return i;
        }
        rem = rem - cands[i].weight as u128;
        i = i + 1;
    }
    assert(ws.take(i as int) == ws);
    0
}

/// A uniform draw in `[0, bound)`.
/// Relies on rand's `thread_rng().gen_range(0..bound)`, which panics only on an empty range.
#[verifier::external_body]
fn draw_below(bound: u128) -> (r: u128)
    requires
        bound > 0,
    ensures
        r < bound,
{
    rand::thread_rng().gen_range(0..bound)
}


proof fn lemma_candidates_err_prefix(ps: Seq<Seq<char>>, n: int)
    requires
        0 <= n <= ps.len(),
        parse_candidates(ps.take(n)) is Err,
    ensures
        parse_candidates(ps) == parse_candidates(ps.take(n)),
    decreases ps.len() - n,
{
    if n < ps.len() {
        assert(ps.take(n + 1).drop_last() == ps.take(n));
        lemma_candidates_err_prefix(ps, n + 1);
    } else {
        assert(ps.take(n) == ps);
    }
}

proof fn lemma_table_err_prefix(ls: Seq<Seq<char>>, n: int)
    requires
        0 <= n <= ls.len(),
        parse_table(ls.take(n)) is Err,
    ensures
        parse_table(ls) == parse_table(ls.take(n)),
    decreases ls.len() - n,
{
    if n < ls.len() {
        assert(ls.take(n + 1).drop_last() == ls.take(n));
        lemma_table_err_prefix(ls, n + 1);
    } else {
        assert(ls.take(n) == ls);
    }
}

/// Parses the candidate in characters `a..b` of `s`.
fn parse_candidate_at(s: &str, cs: &Vec<char>, a: usize, b: usize) -> (r: Result<
    RandPath,
    ParseErrorKind,
>)
    requires
        cs@ == s@,
        a <= b <= cs@.len(),
    ensures
        parse_candidate(cs@.subrange(a as int, b as int)) == match r {
            Ok(rp) => Ok((rp.path@, rp.weight)),
            Err(e) => Err::<(Seq<char>, u32), ParseErrorKind>(e),
        },
{
    let ghost p = cs@.subrange(a as int, b as int);
    let q = find_char(cs, '\'', a, b);
    proof {
        lemma_count_before_bound(p, '\'');
    }
    if q == b {
        return Err(ParseErrorKind::MissingDelim('\''));
    }
    assert(p.take(q - a) == cs@.subrange(a as int, q as int));
    assert(p.skip(q - a + 1) == cs@.subrange(q + 1, b as int));
    let (pa, pb) = trim_range(cs, a, q);
    let (wa, wb) = trim_range(cs, q + 1, b);
    match parse_decimal(cs, wa, wb, 0xFFFF_FFFF) {
        None => Err(ParseErrorKind::InvalidWeight),
        Some(w) => Ok(RandPath { path: substring(s, pa, pb), weight: w as u32 }),
    }
}

/// Parses the line in characters `a..b` of `s`.
fn parse_line_at(s: &str, cs: &Vec<char>, a: usize, b: usize) -> (r: Result<
    (String, PathEntry),
    ParseErrorKind,
>)
    requires
        cs@ == s@,
        a <= b <= cs@.len(),
    ensures
        parse_line(cs@.subrange(a as int, b as int)) == match r {
            Ok((k, pe)) => Ok((k@, pe.view())),
            Err(e) => Err::<(Seq<char>, TargetView), ParseErrorKind>(e),
        },
        r matches Ok((k, pe)) ==> valid_target(pe.view()),
{
    let ghost l = cs@.subrange(a as int, b as int);
    let e = find_char(cs, '=', a, b);
    proof {
        lemma_count_before_bound(l, '=');
    }
    if e == b {
        return Err(ParseErrorKind::MissingDelim('='));
    }
    assert(l.take(e - a) == cs@.subrange(a as int, e as int));
    assert(l.skip(e - a + 1) == cs@.subrange(e + 1, b as int));
    let (ka, kb) = trim_range(cs, a, e);
    let (va, vb) = trim_range(cs, e + 1, b);
    if va == vb {
        return Err(ParseErrorKind::InvalidPath);
    }
    if ka == kb {
        return Err(ParseErrorKind::InvalidKey);
    }
    let key = substring(s, ka, kb);
    let ghost v = cs@.subrange(va as int, vb as int);
    let c = find_char(cs, ',', va, vb);
    proof {
        lemma_split_nonempty(v, ',');
    }
    if c == vb {
        return Ok((key, PathEntry::Single(substring(s, va, vb))));
    }
    let mut out: Vec<RandPath> = Vec::new();
    let mut pos = va;
    let mut finished = false;
    let ghost mut done: Seq<Seq<char>> = seq![];
    assert(candidates_view(out@) == Seq::<(Seq<char>, u32)>::empty());
    assert(parse_line(l) == weighted_line(key@, parse_candidates(split(v, ','))));
    while !finished
        invariant
            cs@ == s@,
            l == cs@.subrange(a as int, b as int),
            parse_line(l) == weighted_line(key@, parse_candidates(split(v, ','))),
            va <= pos <= vb <= cs@.len(),
            v == cs@.subrange(va as int, vb as int),
            !finished ==> done + split(cs@.subrange(pos as int, vb as int), ',') == split(v, ','),
            finished ==> done == split(v, ','),
            parse_candidates(done) == Ok::<Seq<(Seq<char>, u32)>, ParseErrorKind>(
                candidates_view(out@),
            ),
        decreases vb - pos + (if finished { 0int } else { 1int }),
    {
        let ghost t = cs@.subrange(pos as int, vb as int);
        let e2 = find_char(cs, ',', pos, vb);
        proof {
            lemma_count_before_bound(t, ',');
            assert(t.take(e2 - pos) == cs@.subrange(pos as int, e2 as int));
            if e2 < vb {
                assert(t.skip(e2 - pos + 1) == cs@.subrange(e2 + 1, vb as int));
            } else {
                assert(t.take(e2 - pos) == t);
            }
        }
        let ghost piece = cs@.subrange(pos as int, e2 as int);
        let ghost all = split(v, ',');
        proof {
            assert(all.take(done.len() + 1 as int) == done.push(piece));
            assert(done.push(piece).drop_last() == done);
        }
        match parse_candidate_at(s, cs, pos, e2) {
            Err(x) => {
                proof {
                    lemma_candidates_err_prefix(all, done.len() + 1 as int);
                }
                return Err(x);
            },
            Ok(rp) => {
                let ghost before = out@;
                out.push(rp);
                proof {
                    assert(out@.drop_last() == before);
                    assert(candidates_view(out@) == candidates_view(before).push(
                        (rp.path@, rp.weight),
                    ));
                    done = done.push(piece);
                }
            },
        }
        if e2 == vb {
            finished = true;
        } else {
            pos = e2 + 1;
        }
    }
    let total = total_weight(&out);
    if total == 0 {
        return Err(ParseErrorKind::InvalidWeight);
    }
    Ok((key, PathEntry::Weighted(out)))
}

impl RequestMap {
    /// The table as a map from key to target.
    pub closed spec fn view(&self) -> Map<Seq<char>, TargetView> {
        self.table@
    }

    pub closed spec fn wf(&self) -> bool {
        &&& forall|i: int, j: int|
            0 <= i < j < self.entries@.len() ==> self.entries@[i].0@ != self.entries@[j].0@
        &&& forall|i: int|
            0 <= i < self.entries@.len() ==> #[trigger] self.table@.contains_key(
                self.entries@[i].0@,
            ) && self.table@[self.entries@[i].0@] == self.entries@[i].1.view()
        &&& forall|k: Seq<char>|
            #[trigger] self.table@.contains_key(k) ==> exists|i: int|
                0 <= i < self.entries@.len() && self.entries@[i].0@ == k
        &&& forall|k: Seq<char>| #[trigger]
            self.table@.contains_key(k) ==> valid_target(self.table@[k])
    }

    /// Adds or replaces the entry for `k`.
    fn insert(&mut self, k: String, pe: PathEntry)
        requires
            old(self).wf(),
            valid_target(pe.view()),
        ensures
            final(self).wf(),
            final(self)@ == old(self)@.insert(k@, pe.view()),
    {
        let ghost t = pe.view();
        let ghost kv = k@;
        let ghost mut at: int = 0;
        match self.find_key(&k) {
            Some(i) => {
                self.entries.set(i, (k, pe));
                proof {
                    at = i as int;
                }
            },
            None => {
                self.entries.push((k, pe));
                proof {
                    at = self.entries@.len() - 1;
                }
            },
        }
        assert(self.entries@[at].0@ == kv);
        self.table = Ghost(self.table@.insert(kv, t));
        assert forall|j: int| 0 <= j < self.entries@.len() implies #[trigger] self.table@.contains_key(
            self.entries@[j].0@,
        ) && self.table@[self.entries@[j].0@] == self.entries@[j].1.view() by {
            if j < old(self).entries@.len() && self.entries@[j].0@ != kv {
                assert(old(self).entries@[j] == self.entries@[j]);
                assert(old(self).table@.contains_key(old(self).entries@[j].0@));
            }
        }
        assert forall|q: Seq<char>| #[trigger] self.table@.contains_key(q) implies exists|j: int|
            0 <= j < self.entries@.len() && self.entries@[j].0@ == q by {
            if q == kv {
                assert(self.entries@[at].0@ == q);
            } else {
                assert(old(self).table@.contains_key(q));
                let j = choose|j: int| 0 <= j < old(self).entries@.len() && old(self).entries@[j].0@ == q;
                assert(self.entries@[j] == old(self).entries@[j]);
            }
        }
    }

    /// Builds the table from its source text, one `key = target` per line,
    /// where a target is one path or comma-separated `path ' weight`
    /// candidates; a later line for a key replaces an earlier one. The first
    /// line that breaks the format is reported with its number.
    pub fn parse_str(map_str: &str) -> (r: Result<RequestMap, RequestMapParseError>)
        ensures
            r matches Ok(m) ==> m.wf() && parse_table(lines(map_str@)) == Ok::<
                Map<Seq<char>, TargetView>,
                (nat, ParseErrorKind),
            >(m@),
            r matches Err(e) ==> parse_table(lines(map_str@)) == Err::<
                Map<Seq<char>, TargetView>,
                (nat, ParseErrorKind),
            >((e.line_num as nat, e.kind)),
    {
        let cs = chars_of(map_str);
        let n = cs.len();
        let mut rm = RequestMap { entries: Vec::new(), table: Ghost(Map::empty()) };
        let mut pos: usize = 0;
        let mut count: usize = 0;
        let ghost mut done: Seq<Seq<char>> = seq![];
        assert(cs@.subrange(0, n as int) == cs@);
        while pos < n
            invariant
                cs@ == map_str@,
                n == cs@.len(),
                pos <= n,
                rm.wf(),
                count == done.len(),
                count <= pos,
                done + lines(cs@.subrange(pos as int, n as int)) == lines(cs@),
                parse_table(done) == Ok::<Map<Seq<char>, TargetView>, (nat, ParseErrorKind)>(rm@),
            decreases n - pos,
        {
            let (le, next) = next_line(&cs, pos, n);
            let ghost line = cs@.subrange(pos as int, le as int);
            proof {
                assert(lines(cs@).take(done.len() + 1 as int) == done.push(line));
                assert(done.push(line).drop_last() == done);
            }
            match parse_line_at(map_str, &cs, pos, le) {
                Err(kind) => {
                    proof {
                        lemma_table_err_prefix(lines(cs@), done.len() + 1 as int);
                    }
                    return Err(RequestMapParseError { line_num: count + 1, kind });
                },
                Ok((k, pe)) => {
                    rm.insert(k, pe);
                    proof {
                        done = done.push(line);
                    }
                },
            }
            count = count + 1;
            pos = next;
            assert(done + lines(cs@.subrange(pos as int, n as int)) == lines(cs@));
        }
        assert(lines(cs@.subrange(pos as int, n as int)) == Seq::<Seq<char>>::empty());
        assert(done + Seq::<Seq<char>>::empty() == done);
        Ok(rm)
    }

    /// The entries of the table in the order they are kept.
    pub closed spec fn listing(&self) -> Seq<(Seq<char>, TargetView)> {
        self.entries@.map_values(|e: (String, PathEntry)| (e.0@, e.1.view()))
    }

    /// A listing of the table, one line per key, each key once.
    pub fn to_text(&self) -> (r: String)
        requires
            self.wf(),
        ensures
            r@ == listing_text(self.listing()),
            forall|i: int, j: int|
                0 <= i < j < self.listing().len() ==> self.listing()[i].0 != self.listing()[j].0,
            forall|i: int|
                0 <= i < self.listing().len() ==> #[trigger] self@.contains_key(
                    self.listing()[i].0,
                ) && self@[self.listing()[i].0] == self.listing()[i].1,
            forall|k: Seq<char>| #[trigger]
                self@.contains_key(k) ==> exists|i: int|
                    0 <= i < self.listing().len() && self.listing()[i].0 == k,
    {
        let ghost es = self.listing();
        let mut s = String::new();
        let mut i: usize = 0;
        proof {
            reveal_strlit(" -> ");
            reveal_strlit("\n");
            reveal_strlit("'");
            reveal_strlit(" ");
            assert(es.take(0) == Seq::<(Seq<char>, TargetView)>::empty());
        }
        while i < self.entries.len()
            invariant
                es == self.listing(),
                i <= self.entries@.len(),
                s@ == listing_text(es.take(i as int)),
            decreases self.entries@.len() - i,
        {
            let ghost before = s@;
            proof {
                reveal_strlit(" -> ");
                reveal_strlit("\n");
                assert(" -> "@ == seq![' ', '-', '>', ' ']);
                assert("\n"@ == seq!['\n']);
            }
            let (k, pe) = &self.entries[i];
            s.append(k.as_str());
            s.append(" -> ");
            match pe {
                PathEntry::Single(p) => {
                    s.append(p.as_str());
                },
                PathEntry::Weighted(cands) => {
                    let ghost ws = candidates_view(cands@);
                    let ghost head = s@;
                    let mut j: usize = 0;
                    assert(ws.take(0) == Seq::<(Seq<char>, u32)>::empty());
                    while j < cands.len()
                        invariant
                            ws == candidates_view(cands@),
                            j <= cands@.len(),
                            s@ == head + candidates_text(ws.take(j as int)),
                        decreases cands@.len() - j,
                    {
                        proof {
                            reveal_strlit("'");
                            reveal_strlit(" ");
                        }
                        assert(ws.take(j + 1).drop_last() == ws.take(j as int));
                        assert(ws.take(j + 1).last() == ws[j as int]);
                        let ghost before_c = s@;
                        s.append(cands[j].path.as_str());
                        s.append("'");
                        push_decimal(&mut s, cands[j].weight as u64);
                        s.append(" ");
                        assert(s@ == before_c + (cands@[j as int].path@ + seq!['\''] + decimal_text(
                            cands@[j as int].weight as nat,
                        ) + seq![' ']));
                        j = j + 1;
                    }
                    assert(ws.take(j as int) == ws);
                },
            }
            let ghost mid = s@;
            s.append("\n");
            proof {
                assert(es.take(i + 1).drop_last() == es.take(i as int));
                assert(es.take(i + 1).last() == es[i as int]);
                assert(es[i as int] == (k@, pe.view()));
                let body = match pe.view() {
                    TargetView::Single(p) => p,
                    TargetView::Weighted(ws) => candidates_text(ws),
                };
                assert(mid == before + k@ + seq![' ', '-', '>', ' '] + body);
                assert(s@ == before + entry_text(k@, pe.view()));
            }
            i = i + 1;
        }
        assert(es.take(i as int) == es);
        assert forall|q: Seq<char>| #[trigger] self@.contains_key(q) implies exists|j: int|
            0 <= j < self.listing().len() && self.listing()[j].0 == q by {
            let j = choose|j: int| 0 <= j < self.entries@.len() && self.entries@[j].0@ == q;
            assert(self.listing()[j].0 == self.entries@[j].0@);
        }
        s
    }

    fn find_key(&self, k: &String) -> (r: Option<usize>)
        requires
            self.wf(),
        ensures
            r is None <==> !self@.contains_key(k@),
            r matches Some(i) ==> i < self.entries@.len() && self.entries@[i as int].0@ == k@,
    {
        let mut i: usize = 0;
        while i < self.entries.len()
            invariant
                self.wf(),
                i <= self.entries@.len(),
                forall|j: int| 0 <= j < i ==> self.entries@[j].0@ != k@,
            decreases self.entries@.len() - i,
        {
            if self.entries[i].0 == *k {
                return Some(i);
            }
            i = i + 1;
        }
        None
    }

    /// Resolves `k` with a given draw for a weighted entry: exactly the
    /// candidate the draw selects, the single path, or nothing for an unknown key.
    pub fn resolve(&self, k: &str, draw: u128) -> (r: Option<&str>)
        requires
            self.wf(),
            self@.contains_key(k@) ==> match self@[k@] {
                TargetView::Weighted(ws) => draw < weight_sum(ws),
                TargetView::Single(_) => true,
            },
        ensures
            r is None <==> !self@.contains_key(k@),
            r matches Some(p) ==> match self@[k@] {
                TargetView::Single(q) => p@ == q,
                TargetView::Weighted(ws) => exists|i: int|
                    selects(ws, draw as nat, i) && ws[i].0 == p@,
            },
    {
        let key = String::from_str(k);
        match self.find_key(&key) {
            None => None,
            Some(i) => match &self.entries[i].1 {
                PathEntry::Single(p) => Some(p.as_str()),
                PathEntry::Weighted(cands) => {
                    let j = pick_weighted(cands, draw);
                    Some(cands[j].path.as_str())
                },
            },
        }
    }

    /// Resolves `k`: nothing for an unknown key, the single path, or a
    /// candidate drawn afresh with probability proportional to its weight.
    pub fn get(&self, k: &str) -> (r: Option<&str>)
        requires
            self.wf(),
        ensures
            r is None <==> !self@.contains_key(k@),
            r matches Some(p) ==> match self@[k@] {
                TargetView::Single(q) => p@ == q,
                TargetView::Weighted(ws) => exists|i: int|
                    0 <= i < ws.len() && ws[i].1 > 0 && ws[i].0 == p@,
            },
    {
        let key = String::from_str(k);
        match self.find_key(&key) {
            None => None,
            Some(i) => match &self.entries[i].1 {
                PathEntry::Single(p) => Some(p.as_str()),
                PathEntry::Weighted(cands) => {
                    let total = total_weight(cands);
                    let draw = draw_below(total);
                    let j = pick_weighted(cands, draw);
                    proof {
                        let ws = candidates_view(cands@);
                        assert(ws.take(j + 1).drop_last() == ws.take(j as int));
                    }
                    Some(cands[j].path.as_str())
                },
            },
        }
    }
}

} // verus!
