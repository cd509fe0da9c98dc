//! The "essence" of a project: a short digest of its README.
use vstd::prelude::*;
use crate::model::opt_chars;
use crate::text::{
    all_ascii, byte_len, is_ws, line_end, trim_end, trim_start, byte_len_capped, chars_of, contains_text, has_infix, has_prefix, join,
    lemma_byte_len_ascii, lemma_byte_len_bounds, lemma_byte_len_concat, lines, lines_of, lowercase,
    starts_with, string_of, to_lowercase, trim, trim_chars,
};

verus! {

/// Upper bound, in bytes, on the length of an essence built from ASCII text.
pub const ESSENCE_LIMIT: usize = 600;

/// How many lines are kept before only headers and capability lines are.
pub const ESSENCE_BASE_LINES: usize = 15;

/// Badges, images and HTML, which the essence leaves out.
pub open spec fn is_noise(t: Seq<char>) -> bool {
    ||| has_prefix(t, "!["@)
    ||| has_prefix(t, "[!["@)
    ||| has_prefix(t, "<"@)
}

/// A lower-cased line that announces what a project offers.
pub open spec fn has_capability(lower: Seq<char>) -> bool {
    ||| has_infix(lower, "provides"@)
    ||| has_infix(lower, "exposes"@)
    ||| has_infix(lower, "main entry"@)
    ||| has_infix(lower, "orchestrates"@)
}

/// A Markdown header line.
pub open spec fn is_header(t: Seq<char>) -> bool {
    has_prefix(t, "#"@)
}

/// The first `n` characters of `t` (all of it when it is shorter) followed
/// by three dots.
pub open spec fn shortened(t: Seq<char>, n: int) -> Seq<char> {
    let k = if n < t.len() { n } else { t.len() as int };
    t.take(k) + seq!['.', '.', '.']
}

/// The pieces that the essence keeps from the lines `ls`, given the pieces
/// kept so far and the running count (bytes of the kept pieces plus one per
/// piece).
pub open spec fn scan_lines(ls: Seq<Seq<char>>, kept: Seq<Seq<char>>, count: int) -> Seq<
    Seq<char>,
>
    decreases ls.len(),
{
    if ls.len() == 0 {
        kept
    } else {
        let t = trim(ls[0]);
        let rest = ls.drop_first();
        if t.len() == 0 || is_noise(t) {
            scan_lines(rest, kept, count)
        } else if !(is_header(t) || has_capability(lowercase(t)) || kept.len()
            < ESSENCE_BASE_LINES) {
            scan_lines(rest, kept, count)
        } else if count + byte_len(t) > ESSENCE_LIMIT {
            let allowed = if ESSENCE_LIMIT >= count {
                ESSENCE_LIMIT - count
            } else {
                0
            };
            if allowed > 3 {
                let piece = shortened(t, allowed - 3);
                let next = count + byte_len(piece) + 1;
                if next >= ESSENCE_LIMIT {
                    kept.push(piece)
                } else {
                    scan_lines(rest, kept.push(piece), next)
                }
            } else {
                kept
            }
        } else {
            let next = count + byte_len(t) + 1;
            if next >= ESSENCE_LIMIT {
                kept.push(t)
            } else {
                scan_lines(rest, kept.push(t), next)
            }
        }
    }
}

/// The essence of the README text `content`: the kept pieces joined by
/// single spaces, or nothing when no piece is kept.
pub open spec fn essence_of(content: Seq<char>) -> Option<Seq<char>> {
    let kept = scan_lines(lines(content), seq![], 0);
    if kept.len() == 0 {
        None
    } else {
        Some(join(kept, " "@))
    }
}

/// The essence of the first README candidate that could be read and yields
/// one.
pub open spec fn first_essence(readmes: Seq<Option<Seq<char>>>) -> Option<Seq<char>>
    decreases readmes.len(),
{
    if readmes.len() == 0 {
        None
    } else {
        match readmes[0] {
            Some(c) if essence_of(c) is Some => essence_of(c),
            _ => first_essence(readmes.drop_first()),
        }
    }
}

proof fn lemma_ascii_subrange(s: Seq<char>, a: int, b: int)
    requires
        all_ascii(s),
        0 <= a <= b <= s.len(),
    ensures
        all_ascii(s.subrange(a, b)),
{
    assert forall|i: int| 0 <= i < s.subrange(a, b).len() implies (#[trigger] s.subrange(
        a,
        b,
    )[i] as int) < 0x80 by {
        assert(s.subrange(a, b)[i] == s[a + i]);
    }
}

proof fn lemma_trim_ascii(s: Seq<char>)
    requires
        all_ascii(s),
    ensures
        all_ascii(trim(s)),
{
    lemma_trim_start_ascii(s);
    lemma_trim_end_ascii(trim_start(s));
}

proof fn lemma_trim_start_ascii(s: Seq<char>)
    requires
        all_ascii(s),
    ensures
        all_ascii(trim_start(s)),
    decreases s.len(),
{
    if s.len() > 0 && is_ws(s[0]) {
        lemma_ascii_subrange(s, 1, s.len() as int);
        lemma_trim_start_ascii(s.drop_first());
    }
}

proof fn lemma_trim_end_ascii(s: Seq<char>)
    requires
        all_ascii(s),
    ensures
        all_ascii(trim_end(s)),
    decreases s.len(),
{
    if s.len() > 0 && is_ws(s.last()) {
        lemma_ascii_subrange(s, 0, s.len() - 1);
        lemma_trim_end_ascii(s.drop_last());
    }
}

proof fn lemma_line_end_bound(s: Seq<char>)
    ensures
        line_end(s) <= s.len(),
    decreases s.len(),
{
    if s.len() > 0 && s[0] != '\n' {
        lemma_line_end_bound(s.drop_first());
    }
}

proof fn lemma_lines_ascii(s: Seq<char>)
    requires
        all_ascii(s),
    ensures
        forall|i: int| 0 <= i < lines(s).len() ==> all_ascii(#[trigger] lines(s)[i]),
    decreases s.len(),
{
    if s.len() > 0 {
        let k = line_end(s);
        lemma_line_end_bound(s);
        if k < s.len() {
            lemma_ascii_subrange(s, 0, k as int);
            lemma_ascii_subrange(s, k + 1 as int, s.len() as int);
            let l = s.take(k as int);
            if l.len() > 0 {
                lemma_ascii_subrange(l, 0, l.len() - 1);
            }
            lemma_lines_ascii(s.skip(k + 1 as int));
            let r = lines(s);
            assert forall|i: int| 0 <= i < r.len() implies all_ascii(#[trigger] r[i]) by {
                if i > 0 {
                    assert(r[i] == lines(s.skip(k + 1 as int))[i - 1]);
                }
            }
        }
    }
}

proof fn lemma_join_push_len(kept: Seq<Seq<char>>, p: Seq<char>)
    ensures
        byte_len(join(kept.push(p), " "@)) == if kept.len() == 0 {
            byte_len(p) as int
        } else {
            byte_len(join(kept, " "@)) + 1 + byte_len(p) as int
        },
{
    reveal_strlit(" ");
    assert(kept.push(p).drop_last() =~= kept);
    if kept.len() > 0 {
        lemma_byte_len_concat(join(kept, " "@), " "@);
        lemma_byte_len_concat(join(kept, " "@) + " "@, p);
        lemma_byte_len_ascii(" "@);
    }
}

proof fn lemma_scan_within_limit(ls: Seq<Seq<char>>, kept: Seq<Seq<char>>, count: int)
    requires
        forall|i: int| 0 <= i < ls.len() ==> all_ascii(#[trigger] ls[i]),
        count == if kept.len() == 0 {
            0
        } else {
            byte_len(join(kept, " "@)) + 1
        },
        count <= ESSENCE_LIMIT,
    ensures
        scan_lines(ls, kept, count).len() > 0 ==> byte_len(join(scan_lines(ls, kept, count), " "@))
            <= ESSENCE_LIMIT,
    decreases ls.len(),
{
    if ls.len() > 0 {
        let t = trim(ls[0]);
        let rest = ls.drop_first();
        assert(all_ascii(ls[0]));
        lemma_trim_ascii(ls[0]);
        lemma_byte_len_ascii(t);
        assert forall|i: int| 0 <= i < rest.len() implies all_ascii(#[trigger] rest[i]) by {
            assert(rest[i] == ls[i + 1]);
        }
        if t.len() == 0 || is_noise(t) {
            lemma_scan_within_limit(rest, kept, count);
        } else if !(is_header(t) || has_capability(lowercase(t)) || kept.len()
            < ESSENCE_BASE_LINES) {
            lemma_scan_within_limit(rest, kept, count);
        } else if count + byte_len(t) > ESSENCE_LIMIT {
            let allowed = ESSENCE_LIMIT - count;
            if allowed > 3 {
                let piece = shortened(t, allowed - 3);
                lemma_ascii_subrange(t, 0, allowed - 3);
                assert(all_ascii(piece));
                lemma_byte_len_ascii(piece);
                lemma_join_push_len(kept, piece);
                let next = count + byte_len(piece) + 1;
                if next < ESSENCE_LIMIT {
                    lemma_scan_within_limit(rest, kept.push(piece), next);
                }
            }
        } else {
            lemma_join_push_len(kept, t);
            let next = count + byte_len(t) + 1;
            if next < ESSENCE_LIMIT {
                lemma_scan_within_limit(rest, kept.push(t), next);
            }
        }
    }
}

/// An essence made from ASCII text is never longer than `ESSENCE_LIMIT` bytes.
pub proof fn law_essence_within_limit(content: Seq<char>)
    requires
        all_ascii(content),
    ensures
        essence_of(content) matches Some(e) ==> byte_len(e) <= ESSENCE_LIMIT,
{
    lemma_lines_ascii(content);
    lemma_scan_within_limit(lines(content), seq![], 0);
}

proof fn lemma_join_push_chars(kept: Seq<Seq<char>>, p: Seq<char>)
    ensures
        join(kept.push(p), " "@).len() == if kept.len() == 0 {
            p.len() as int
        } else {
            (join(kept, " "@).len() + 1 + p.len()) as int
        },
{
    reveal_strlit(" ");
    assert(kept.push(p).drop_last() =~= kept);
}

proof fn lemma_scan_chars_within_limit(ls: Seq<Seq<char>>, kept: Seq<Seq<char>>, count: int)
    requires
        kept.len() == 0 ==> count >= 0,
        kept.len() > 0 ==> count >= join(kept, " "@).len() + 1,
        count <= ESSENCE_LIMIT,
    ensures
        scan_lines(ls, kept, count).len() > 0 ==> join(scan_lines(ls, kept, count), " "@).len()
            <= ESSENCE_LIMIT,
    decreases ls.len(),
{
    if ls.len() > 0 {
        let t = trim(ls[0]);
        let rest = ls.drop_first();
        lemma_byte_len_bounds(t);
        if t.len() == 0 || is_noise(t) {
            lemma_scan_chars_within_limit(rest, kept, count);
        } else if !(is_header(t) || has_capability(lowercase(t)) || kept.len()
            < ESSENCE_BASE_LINES) {
            lemma_scan_chars_within_limit(rest, kept, count);
        } else if count + byte_len(t) > ESSENCE_LIMIT {
            let allowed = ESSENCE_LIMIT - count;
            if allowed > 3 {
                let piece = shortened(t, allowed - 3);
                lemma_byte_len_bounds(piece);
                lemma_join_push_chars(kept, piece);
                let next = count + byte_len(piece) + 1;
                if next < ESSENCE_LIMIT {
                    lemma_scan_chars_within_limit(rest, kept.push(piece), next);
                }
            }
        } else {
            lemma_join_push_chars(kept, t);
            let next = count + byte_len(t) + 1;
            if next < ESSENCE_LIMIT {
                lemma_scan_chars_within_limit(rest, kept.push(t), next);
            }
        }
    }
}

/// An essence never has more than `ESSENCE_LIMIT` characters, whatever the
/// text it is made from.
pub proof fn law_essence_chars_within_limit(content: Seq<char>)
    ensures
        essence_of(content) matches Some(e) ==> e.len() <= ESSENCE_LIMIT,
{
    lemma_scan_chars_within_limit(lines(content), seq![], 0);
}

/// A line's lower-cased text announces a capability exactly when it
/// mentions "provides", "exposes", "main entry" or "orchestrates".
pub proof fn law_capability_words(lower: Seq<char>)
    ensures
        has_capability(lower) <==> (has_infix(lower, "provides"@) || has_infix(lower, "exposes"@)
            || has_infix(lower, "main entry"@) || has_infix(lower, "orchestrates"@)),
{
}

proof fn lemma_scan_extends(ls: Seq<Seq<char>>, kept: Seq<Seq<char>>, count: int)
    ensures
        scan_lines(ls, kept, count).len() >= kept.len(),
        scan_lines(ls, kept, count).take(kept.len() as int) == kept,
    decreases ls.len(),
{
    if ls.len() > 0 {
        let t = trim(ls[0]);
        let rest = ls.drop_first();
        lemma_scan_extends(rest, kept, count);
        if count + byte_len(t) > ESSENCE_LIMIT {
            let allowed = if ESSENCE_LIMIT >= count {
                ESSENCE_LIMIT - count
            } else {
                0
            };
            let piece = shortened(t, allowed - 3);
            let next = count + byte_len(piece) + 1;
            lemma_scan_extends(rest, kept.push(piece), next);
            let r = scan_lines(rest, kept.push(piece), next);
            assert(r.take(kept.len() as int) =~= r.take(kept.len() + 1 as int).take(kept.len() as int));
            assert(kept.push(piece).take(kept.len() as int) =~= kept);
            assert(kept.push(piece).take(kept.len() as int) =~= kept);
        } else {
            let next = count + byte_len(t) + 1;
            lemma_scan_extends(rest, kept.push(t), next);
            let r = scan_lines(rest, kept.push(t), next);
            assert(r.take(kept.len() as int) =~= r.take(kept.len() + 1 as int).take(kept.len() as int));
            assert(kept.push(t).take(kept.len() as int) =~= kept);
        }
    }
}

/// A trimmed line that is not empty, not a badge, image or HTML, and whose
/// lower-cased text mentions a capability word is kept right after the
/// pieces kept so far, however many those are, when it fits within the
/// byte limit.
pub proof fn law_capability_line_kept(ls: Seq<Seq<char>>, kept: Seq<Seq<char>>, count: int)
    requires
        ls.len() > 0,
        trim(ls[0]).len() > 0,
        !has_prefix(trim(ls[0]), "!["@),
        !has_prefix(trim(ls[0]), "[!["@),
        !has_prefix(trim(ls[0]), "<"@),
        has_infix(lowercase(trim(ls[0])), "provides"@) || has_infix(lowercase(trim(ls[0])), "exposes"@)
            || has_infix(lowercase(trim(ls[0])), "main entry"@) || has_infix(
            lowercase(trim(ls[0])),
            "orchestrates"@,
        ),
        count + byte_len(trim(ls[0])) <= ESSENCE_LIMIT,
    ensures
        scan_lines(ls, kept, count).len() > kept.len(),
        scan_lines(ls, kept, count).take(kept.len() + 1 as int) == kept.push(trim(ls[0])),
{
    let t = trim(ls[0]);
    let rest = ls.drop_first();
    let next = count + byte_len(t) + 1;
    assert(has_capability(lowercase(t)));
    if next < ESSENCE_LIMIT {
        lemma_scan_extends(rest, kept.push(t), next);
    } else {
        assert(kept.push(t).take(kept.len() + 1 as int) =~= kept.push(t));
    }
}

/// The characters of each kept piece.
pub open spec fn piece_views(v: Seq<Vec<char>>) -> Seq<Seq<char>> {
    v.map_values(|p: Vec<char>| p@)
}

proof fn lemma_join_step(parts: Seq<Seq<char>>, i: int, sep: Seq<char>)
    requires
        1 <= i < parts.len(),
    ensures
        join(parts.take(i + 1), sep) == join(parts.take(i), sep) + sep + parts[i],
{
    assert(parts.take(i + 1).drop_last() =~= parts.take(i));
}

/// `parts` joined with single spaces.
fn join_pieces(parts: &Vec<Vec<char>>) -> (r: Vec<char>)
    requires
        parts.len() > 0,
    ensures
        r@ == join(piece_views(parts@), " "@),
{
    let ghost pv = piece_views(parts@);
    let sep = chars_of(" ");
    let mut acc: Vec<char> = Vec::new();
    let mut k: usize = 0;
    while k < parts[0].len()
        invariant
            parts.len() > 0,
            k <= parts@[0].len(),
            acc@ == parts@[0]@.take(k as int),
        decreases parts@[0].len() - k,
    {
        acc.push(parts[0][k]);
        k = k + 1;
        assert(acc@ =~= parts@[0]@.take(k as int));
    }
    assert(parts@[0]@.take(parts@[0].len() as int) =~= parts@[0]@);
    assert(pv.take(1) =~= seq![pv[0]]);
    let mut i: usize = 1;
    while i < parts.len()
        invariant
            1 <= i <= parts.len(),
            pv == piece_views(parts@),
            sep@ == " "@,
            acc@ == join(pv.take(i as int), " "@),
        decreases parts.len() - i,
    {
        let ghost before = acc@;
        let mut k: usize = 0;
        while k < sep.len()
            invariant
                k <= sep.len(),
                acc@ == before + sep@.take(k as int),
            decreases sep.len() - k,
        {
            acc.push(sep[k]);
            k = k + 1;
            assert(acc@ =~= before + sep@.take(k as int));
        }
        assert(sep@.take(sep.len() as int) =~= sep@);
        let ghost mid = acc@;
        let mut k: usize = 0;
        while k < parts[i].len()
            invariant
                1 <= i < parts.len(),
                k <= parts@[i as int].len(),
                acc@ == mid + parts@[i as int]@.take(k as int),
            decreases parts@[i as int].len() - k,
        {
            acc.push(parts[i][k]);
            k = k + 1;
            assert(acc@ =~= mid + parts@[i as int]@.take(k as int));
        }
        assert(parts@[i as int]@.take(parts@[i as int].len() as int) =~= parts@[i as int]@);
        proof {
            lemma_join_step(pv, i as int, " "@);
        }
        i = i + 1;
    }
    assert(pv.take(parts.len() as int) =~= pv);
    acc
}

/// `t` cut to its first `n` characters, followed by three dots.
fn shorten(t: &Vec<char>, n: usize) -> (r: Vec<char>)
    ensures
        r@ == shortened(t@, n as int),
{
    let mut r: Vec<char> = Vec::new();
    let mut k: usize = 0;
    while k < n && k < t.len()
        invariant
            k <= t.len(),
            k <= n,
            r@ == t@.take(k as int),
        decreases t.len() - k,
    {
        r.push(t[k]);
        k = k + 1;
        assert(r@ =~= t@.take(k as int));
    }
    r.push('.');
    r.push('.');
    r.push('.');
    assert(r@ =~= shortened(t@, n as int));
    r
}

/// Whether the lower-cased line `lower` announces a capability.
pub fn announces_capability(lower: &str) -> (r: bool)
    ensures
        r == has_capability(lower@),
{
    let l = chars_of(lower);
    contains_text(&l, &chars_of("provides")) || contains_text(&l, &chars_of("exposes"))
        || contains_text(&l, &chars_of("main entry")) || contains_text(
        &l,
        &chars_of("orchestrates"),
    )
}

/// The essence of the README text `content`: trimmed lines other than
/// badges, images and HTML, kept while fewer than fifteen are kept and
/// afterwards only when they are headers or announce a capability, cut so
/// that the running byte count stays within the limit, joined by spaces.
pub fn essence_from_text(content: &str) -> (r: Option<String>)
    ensures
        opt_chars(r) == essence_of(content@),
{
    let text = chars_of(content);
    let ls = lines_of(&text);
    let ghost lv = ls@.map_values(|l: Vec<char>| l@);
    let n = ls.len();
    let img = chars_of("![");
    let badge = chars_of("[![");
    let html = chars_of("<");
    let hash = chars_of("#");
    let mut kept: Vec<Vec<char>> = Vec::new();
    let mut count: usize = 0;
    let mut done = false;
    let mut i: usize = 0;
    assert(lv.skip(0) =~= lv);
    assert(piece_views(kept@) =~= Seq::<Seq<char>>::empty());
    while i < n && !done
        invariant
            n == ls.len(),
            i <= n,
            lv == ls@.map_values(|l: Vec<char>| l@),
            lv == lines(content@),
            img@ == "!["@,
            badge@ == "[!["@,
            html@ == "<"@,
            hash@ == "#"@,
            !done ==> count < ESSENCE_LIMIT,
            !done ==> scan_lines(lv, seq![], 0) == scan_lines(
                lv.skip(i as int),
                piece_views(kept@),
                count as int,
            ),
            done ==> scan_lines(lv, seq![], 0) == piece_views(kept@),
        decreases n - i,
    {
        let ghost rest = lv.skip(i as int);
        let ghost pk = piece_views(kept@);
        assert(rest[0] == ls@[i as int]@);
        assert(rest.drop_first() =~= lv.skip(i + 1));
        let t = trim_chars(&ls[i]);
        if t.len() == 0 || starts_with(&t, &img) || starts_with(&t, &badge) || starts_with(
            &t,
            &html,
        ) {
            i = i + 1;
            continue;
        }
        let header = starts_with(&t, &hash);
        let wanted = if header || kept.len() < ESSENCE_BASE_LINES {
            true
        } else {
            announces_capability(to_lowercase(string_of(&t).as_str()).as_str())
        };
        if !wanted {
            i = i + 1;
            continue;
        }
        let len = byte_len_capped(&t, ESSENCE_LIMIT + 1);
        if count + len > ESSENCE_LIMIT {
            let allowed = ESSENCE_LIMIT - count;
            if allowed > 3 {
                let piece = shorten(&t, allowed - 3);
                proof {
                    lemma_byte_len_bounds(piece@);
                }
                let plen = byte_len_capped(&piece, 4 * ESSENCE_LIMIT);
                let next = count + plen + 1;
                kept.push(piece);
                proof {
                    assert(piece_views(kept@) =~= pk.push(piece@));
                }
                count = next;
                if next >= ESSENCE_LIMIT {
                    done = true;
                }
            } else {
                done = true;
            }
        } else {
            let next = count + len + 1;
            kept.push(t);
            proof {
                assert(piece_views(kept@) =~= pk.push(t@));
            }
            count = next;
            if next >= ESSENCE_LIMIT {
                done = true;
            }
        }
        i = i + 1;
    }
    if !done {
        assert(lv.skip(i as int).len() == 0);
    }
    if kept.len() == 0 {
        None
    } else {
        let joined = join_pieces(&kept);
        Some(string_of(&joined))
    }
}

/// The essence of a project whose README candidates (`README.md`,
/// `readme.md`, `README.markdown`, in that order) read as `readmes`, an
/// entry being `None` where the file could not be read: the essence of the
/// first readable candidate that yields one.
pub fn extract_essence(readmes: &[Option<String>]) -> (r: Option<String>)
    ensures
        opt_chars(r) == first_essence(readmes@.map_values(|o: Option<String>| opt_chars(o))),
{
    let ghost rv = readmes@.map_values(|o: Option<String>| opt_chars(o));
    let mut i: usize = 0;
    assert(rv.skip(0) =~= rv);
    while i < readmes.len()
        invariant
            i <= readmes.len(),
            rv == readmes@.map_values(|o: Option<String>| opt_chars(o)),
            first_essence(rv) == first_essence(rv.skip(i as int)),
        decreases readmes.len() - i,
    {
        let ghost rest = rv.skip(i as int);
        assert(rest.drop_first() =~= rv.skip(i + 1));
        assert(rest[0] == opt_chars(readmes@[i as int]));
        match &readmes[i] {
            Some(content) => {
                let e = essence_from_text(content.as_str());
                if e.is_some() {
                    return e;
                }
            },
            None => {},
        }
        i = i + 1;
    }
    None
}

} // verus!
