use vstd::prelude::*;

verus! {

/// The parts joined with `sep` between each neighbouring pair.
pub open spec fn join(parts: Seq<Seq<char>>, sep: char) -> Seq<char>
    decreases parts.len(),
{
    if parts.len() == 0 {
        Seq::empty()
    } else if parts.len() == 1 {
        parts[0]
    } else {
        join(parts.drop_last(), sep).push(sep) + parts.last()
    }
}

/// Joining one more part appends the separator and that part.
pub proof fn lemma_join_push(parts: Seq<Seq<char>>, p: Seq<char>, sep: char)
    requires
        parts.len() >= 1,
    ensures
        join(parts.push(p), sep) == join(parts, sep).push(sep) + p,
{
    assert(parts.push(p).drop_last() =~= parts);
}


/// The pieces of `s` between occurrences of `sep` (one more piece than
/// there are separators; pieces may be empty).
pub open spec fn split(s: Seq<char>, sep: char) -> Seq<Seq<char>>
    decreases s.len(),
{
    if s.len() == 0 {
        seq![Seq::empty()]
    } else {
        let r = split(s.drop_last(), sep);
        if s.last() == sep {
            r.push(Seq::empty())
        } else {
            r.update(r.len() - 1, r.last().push(s.last()))
        }
    }
}

/// There is always at least one piece.
pub proof fn lemma_split_nonempty(s: Seq<char>, sep: char)
    ensures
        split(s, sep).len() >= 1,
    decreases s.len(),
{
    if s.len() > 0 {
        lemma_split_nonempty(s.drop_last(), sep);
    }
}

/// Text without the separator is one piece.
pub proof fn lemma_split_single(s: Seq<char>, sep: char)
    requires
        !s.contains(sep),
    ensures
        split(s, sep) == seq![s],
    decreases s.len(),
{
    if s.len() > 0 {
        let s0 = s.drop_last();
        assert(!s0.contains(sep)) by {
            if s0.contains(sep) {
                let i = choose|i: int| 0 <= i < s0.len() && s0[i] == sep;
                assert(s[i] == sep);
            }
        }
        assert(s.last() != sep) by {
            assert(s[s.len() - 1] == s.last());
        }
        lemma_split_single(s0, sep);
        assert(s0.push(s.last()) =~= s);
        assert(split(s, sep) =~= seq![s]);
    } else {
        assert(s =~= Seq::<char>::empty());
        assert(split(s, sep) =~= seq![s]);
    }
}

/// A separator followed by separator-free text adds that text as one more
/// piece.
pub proof fn lemma_split_append_piece(s: Seq<char>, sep: char, p: Seq<char>)
    requires
        !p.contains(sep),
    ensures
        split(s.push(sep) + p, sep) == split(s, sep).push(p),
    decreases p.len(),
{
    if p.len() == 0 {
        assert(s.push(sep) + p =~= s.push(sep));
        assert(s.push(sep).drop_last() =~= s);
        assert(p =~= Seq::<char>::empty());
    } else {
        let p0 = p.drop_last();
        assert(!p0.contains(sep)) by {
            if p0.contains(sep) {
                let i = choose|i: int| 0 <= i < p0.len() && p0[i] == sep;
                assert(p[i] == sep);
            }
        }
        assert(p.last() != sep) by {
            assert(p[p.len() - 1] == p.last());
        }
        lemma_split_append_piece(s, sep, p0);
        let whole = s.push(sep) + p;
        assert(whole.drop_last() =~= s.push(sep) + p0);
        assert(whole.last() == p.last());
        lemma_split_nonempty(s, sep);
        assert(p0.push(p.last()) =~= p);
        assert(split(whole, sep) =~= split(s, sep).push(p));
    }
}

/// Splitting the join of separator-free pieces gives the pieces back.
pub proof fn lemma_split_join(parts: Seq<Seq<char>>, sep: char)
    requires
        parts.len() >= 1,
        forall|i: int| 0 <= i < parts.len() ==> !(#[trigger] parts[i]).contains(sep),
    ensures
        split(join(parts, sep), sep) == parts,
    decreases parts.len(),
{
    if parts.len() == 1 {
        lemma_split_single(parts[0], sep);
        assert(seq![parts[0]] =~= parts);
    } else {
        let init = parts.drop_last();
        assert forall|i: int| 0 <= i < init.len() implies !(#[trigger] init[i]).contains(sep) by {
            assert(init[i] == parts[i]);
        }
        lemma_split_join(init, sep);
        assert(!parts[parts.len() - 1].contains(sep));
        lemma_split_append_piece(join(init, sep), sep, parts.last());
        assert(init.push(parts.last()) =~= parts);
    }
}

/// Joining the pieces of a text gives the text back.
pub proof fn lemma_join_split(s: Seq<char>, sep: char)
    ensures
        join(split(s, sep), sep) == s,
    decreases s.len(),
{
    if s.len() == 0 {
    } else {
        let s0 = s.drop_last();
        lemma_join_split(s0, sep);
        lemma_split_nonempty(s0, sep);
        let r = split(s0, sep);
        if s.last() == sep {
            lemma_join_push(r, Seq::empty(), sep);
            assert(s0.push(sep) + Seq::<char>::empty() =~= s);
        } else {
            let x = s.last();
            let r2 = r.update(r.len() - 1, r.last().push(x));
            if r.len() == 1 {
                assert(join(r2, sep) =~= s);
            } else {
                assert(r2.drop_last() =~= r.drop_last());
                assert(join(r2, sep) =~= join(r, sep).push(x));
                assert(s0.push(x) =~= s);
            }
        }
    }
}

/// Joining non-empty separator-free pieces never puts two separators side
/// by side, and the result neither starts nor ends with the separator.
pub proof fn lemma_join_no_double(parts: Seq<Seq<char>>, sep: char)
    requires
        parts.len() >= 1,
        forall|i: int|
            0 <= i < parts.len() ==> (#[trigger] parts[i]).len() >= 1 && !parts[i].contains(sep),
    ensures
        join(parts, sep).len() >= 1,
        join(parts, sep)[0] != sep,
        join(parts, sep).last() != sep,
        forall|j: int|
            0 <= j < join(parts, sep).len() - 1 ==> !(join(parts, sep)[j] == sep && #[trigger] join(
                parts,
                sep,
            )[j + 1] == sep),
    decreases parts.len(),
{
    let last = parts.last();
    assert(last.len() >= 1 && !last.contains(sep)) by {
        assert(parts[parts.len() - 1] == last);
    }
    assert(last[0] != sep && last.last() != sep) by {
        assert(last.contains(last[0]));
        assert(last.contains(last[last.len() - 1]));
    }
    if parts.len() == 1 {
        let t = join(parts, sep);
        assert(t == last);
        assert forall|j: int| 0 <= j < t.len() - 1 implies !(t[j] == sep && #[trigger] t[j + 1]
            == sep) by {
            assert(last.contains(t[j]));
        }
    } else {
        let init = parts.drop_last();
        assert forall|i: int| 0 <= i < init.len() implies (#[trigger] init[i]).len() >= 1
            && !init[i].contains(sep) by {
            assert(init[i] == parts[i]);
        }
        lemma_join_no_double(init, sep);
        let h = join(init, sep);
        let t = join(parts, sep);
        assert(t == h.push(sep) + last);
        assert(t[0] == h[0]);
        assert(t.last() == last.last());
        assert forall|j: int| 0 <= j < t.len() - 1 implies !(t[j] == sep && #[trigger] t[j + 1]
            == sep) by {
            if j < h.len() - 1 {
                assert(t[j] == h[j] && t[j + 1] == h[j + 1]);
            } else if j == h.len() - 1 {
                assert(t[j] == h.last());
            } else if j == h.len() {
                assert(t[j + 1] == last[0]);
            } else {
                assert(t[j] == last[j - h.len() - 1]);
                assert(last.contains(t[j]));
            }
        }
    }
}

/// A character that is in no piece and is not the separator is not in the
/// join.
pub proof fn lemma_join_avoids(parts: Seq<Seq<char>>, sep: char, c: char)
    requires
        c != sep,
        forall|i: int| 0 <= i < parts.len() ==> !(#[trigger] parts[i]).contains(c),
    ensures
        !join(parts, sep).contains(c),
    decreases parts.len(),
{
    if parts.len() == 1 {
        assert(parts[0] == join(parts, sep));
    } else if parts.len() > 1 {
        let init = parts.drop_last();
        assert forall|i: int| 0 <= i < init.len() implies !(#[trigger] init[i]).contains(c) by {
            assert(init[i] == parts[i]);
        }
        lemma_join_avoids(init, sep, c);
        let h = join(init, sep);
        let last = parts.last();
        assert(!last.contains(c)) by {
            assert(parts[parts.len() - 1] == last);
        }
        let t = join(parts, sep);
        if t.contains(c) {
            let j = choose|j: int| 0 <= j < t.len() && t[j] == c;
            if j < h.len() {
                assert(h[j] == c);
            } else if j > h.len() {
                assert(last[j - h.len() - 1] == c);
            }
        }
    }
}

/// Two or more pieces join with the separator in between.
pub proof fn lemma_join_has_sep(parts: Seq<Seq<char>>, sep: char)
    requires
        parts.len() >= 2,
    ensures
        join(parts, sep).contains(sep),
{
    let h = join(parts.drop_last(), sep);
    assert(join(parts, sep)[h.len() as int] == sep);
}

/// The characters of a string, one by one.
pub fn chars_of(s: &str) -> (r: Vec<char>)
    ensures
        r@ == s@,
{
    let n = s.unicode_len();
    let mut r: Vec<char> = Vec::new();
    let mut i: usize = 0;
    while i < n
        invariant
            n == s@.len(),
            i <= n,
            r@ == s@.take(i as int),
        decreases n - i,
    {
        r.push(s.get_char(i));
        assert(r@ =~= s@.take(i + 1 as int));
        i += 1;
    }
    assert(s@.take(n as int) =~= s@);
    r
}

/// The contents of a sequence of character vectors.
pub open spec fn views(vs: Seq<Vec<char>>) -> Seq<Seq<char>> {
    vs.map_values(|v: Vec<char>| v@)
}

/// The pieces of `s[lo..hi]` between occurrences of `sep`.
pub fn split_chars(s: &Vec<char>, lo: usize, hi: usize, sep: char) -> (r: Vec<Vec<char>>)
    requires
        lo <= hi <= s@.len(),
    ensures
        views(r@) == split(s@.subrange(lo as int, hi as int), sep),
{
    let mut done: Vec<Vec<char>> = Vec::new();
    let mut cur: Vec<char> = Vec::new();
    let mut i = lo;
    while i < hi
        invariant
            lo <= i <= hi <= s@.len(),
            views(done@).push(cur@) == split(s@.subrange(lo as int, i as int), sep),
        decreases hi - i,
    {
        let c = s[i];
        let ghost prev = s@.subrange(lo as int, i as int);
        let ghost next = s@.subrange(lo as int, i + 1 as int);
        assert(next.drop_last() =~= prev);
        let ghost old_done = views(done@);
        let ghost old_cur = cur@;
        if c == sep {
            done.push(cur);
            cur = Vec::new();
            assert(views(done@) =~= old_done.push(old_cur));
            assert(views(done@).push(cur@) =~= split(next, sep));
        } else {
            cur.push(c);
            assert(views(done@) == old_done);
            assert(views(done@).push(cur@) =~= split(next, sep));
        }
        i += 1;
    }
    done.push(cur);
    proof {
        assert(views(done@) =~= split(s@.subrange(lo as int, hi as int), sep));
    }
    done
}

} // verus!
