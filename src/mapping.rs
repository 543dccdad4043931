//! Character lists turned into character-to-number tables, as used for the
//! dictionaries' grade and index lists.
//!
//! Line breaks (`\n` or `\r\n`) in a list are ignored; a space skips an
//! entry; every other character is mapped. A character that occurs twice is
//! an error that names it.
use vstd::prelude::*;
use vstd::string::*;

verus! {

/// Whether the character at `i` of `s` is an entry: it is not a line feed,
/// nor a carriage return that starts a `\r\n`.
pub open spec fn is_entry(s: Seq<char>, i: int) -> bool {
    s[i] != '\n' && !(s[i] == '\r' && i + 1 < s.len() && s[i + 1] == '\n')
}

/// The entries among the first `n` characters of `s`.
pub open spec fn entries(s: Seq<char>, n: int) -> Seq<char>
    decreases n,
{
    if n <= 0 {
        Seq::empty()
    } else if is_entry(s, n - 1) {
        entries(s, n - 1).push(s[n - 1])
    } else {
        entries(s, n - 1)
    }
}

/// The entries of `s`.
pub open spec fn list_entries(s: Seq<char>) -> Seq<char> {
    entries(s, s.len() as int)
}

/// Each entry of `cs` but spaces, with its 1-based position in `cs`.
pub open spec fn indexed(cs: Seq<char>) -> Seq<(char, u32)>
    decreases cs.len(),
{
    if cs.len() == 0 {
        Seq::empty()
    } else if cs.last() == ' ' {
        indexed(cs.drop_last())
    } else {
        indexed(cs.drop_last()).push((cs.last(), cs.len() as u32))
    }
}

/// Each entry of `cs` but spaces, with the number `g`.
pub open spec fn tagged(cs: Seq<char>, g: u32) -> Seq<(char, u32)>
    decreases cs.len(),
{
    if cs.len() == 0 {
        Seq::empty()
    } else if cs.last() == ' ' {
        tagged(cs.drop_last(), g)
    } else {
        tagged(cs.drop_last(), g).push((cs.last(), g))
    }
}

/// The entries of every list but spaces, each with the 1-based number of
/// its list.
pub open spec fn graded(lists: Seq<Seq<char>>) -> Seq<(char, u32)>
    decreases lists.len(),
{
    if lists.len() == 0 {
        Seq::empty()
    } else {
        graded(lists.drop_last()) + tagged(list_entries(lists.last()), lists.len() as u32)
    }
}

/// Whether `c` is mapped in `e`.
pub open spec fn has_key(e: Seq<(char, u32)>, c: char) -> bool {
    exists|j: int| 0 <= j < e.len() && (#[trigger] e[j]).0 == c
}

/// The first character of `e` that was mapped before, if any.
pub open spec fn first_repeat(e: Seq<(char, u32)>) -> Option<char>
    decreases e.len(),
{
    if e.len() == 0 {
        None
    } else {
        match first_repeat(e.drop_last()) {
            Some(c) => Some(c),
            None => if has_key(e.drop_last(), e.last().0) {
                Some(e.last().0)
            } else {
                None
            },
        }
    }
}

/// What a table over the pairs `e` comes to: the first repeated character
/// as the error, else the pairs themselves.
pub open spec fn table_of(e: Seq<(char, u32)>) -> Result<Seq<(char, u32)>, char> {
    match first_repeat(e) {
        Some(c) => Err(c),
        None => Ok(e),
    }
}

fn find_key(e: &Vec<(char, u32)>, c: char) -> (r: bool)
    ensures
        r == has_key(e@, c),
{
    let mut j: usize = 0;
    while j < e.len()
        invariant
            j <= e@.len(),
            forall|k: int| 0 <= k < j ==> (#[trigger] e@[k]).0 != c,
        decreases e.len() - j,
    {
        if e[j].0 == c {
            assert(e@[j as int].0 == c);
            return true;
        }
        j = j + 1;
    }
    false
}

/// Appends the entry `c` of a list to the table `out` under the number `n`.
fn add_entry(out: &mut Vec<(char, u32)>, c: char, n: u32) -> (r: Result<(), char>)
    requires
        first_repeat(old(out)@) is None,
        c != ' ',
    ensures
        r is Ok ==> final(out)@ == old(out)@.push((c, n)) && first_repeat(final(out)@) is None,
        r matches Err(d) ==> d == c && first_repeat(old(out)@.push((c, n))) == Some(c),
{
    let ghost before = out@;
    let found = find_key(out, c);
    assert(before.push((c, n)).drop_last() =~= before);
    if found {
        return Err(c);
    }
    out.push((c, n));
    Ok(())
}

/// Maps each entry of `list` but spaces to its 1-based position among the
/// entries, in order.
pub fn index_mapping(list: &str) -> (r: Result<Vec<(char, u32)>, char>)
    requires
        list@.len() < u32::MAX,
    ensures
        match (r, table_of(indexed(list_entries(list@)))) {
            (Ok(v), Ok(e)) => v@ == e,
            (Err(c), Err(d)) => c == d,
            _ => false,
        },
{
    let n = list.unicode_len();
    let ghost s = list@;
    let mut out: Vec<(char, u32)> = Vec::new();
    let mut count: u32 = 0;
    let mut i: usize = 0;
    while i < n
        invariant
            n == s.len(),
            s == list@,
            s.len() < u32::MAX,
            i <= n,
            count as int == entries(s, i as int).len(),
            count <= i,
            out@ == indexed(entries(s, i as int)),
            first_repeat(out@) is None,
        decreases n - i,
    {
        let c = list.get_char(i);
        let skip = c == '\n' || (c == '\r' && i + 1 < n && list.get_char(i + 1) == '\n');
        if !skip {
            count = count + 1;
            let ghost cs = entries(s, i + 1);
            assert(cs == entries(s, i as int).push(c));
            assert(cs.drop_last() =~= entries(s, i as int));
            if c != ' ' {
                if let Err(d) = add_entry(&mut out, c, count) {
                    i = i + 1;
                    proof {
                        lemma_first_repeat_stays(indexed(cs), s, i as int);
                    }
                    return Err(d);
                }
            }
        }
        i = i + 1;
    }
    Ok(out)
}

proof fn lemma_first_repeat_stays(e: Seq<(char, u32)>, s: Seq<char>, i: int)
    requires
        0 <= i <= s.len(),
        first_repeat(e) is Some,
        e == indexed(entries(s, i)),
    ensures
        first_repeat(indexed(entries(s, s.len() as int))) == first_repeat(e),
    decreases s.len() - i,
{
    if i < s.len() {
        let cs = entries(s, i + 1);
        if is_entry(s, i) {
            assert(cs.drop_last() =~= entries(s, i));
            if s[i] != ' ' {
                assert(indexed(cs).drop_last() =~= e);
            }
        }
        lemma_first_repeat_stays(indexed(cs), s, i + 1);
    }
}

/// Maps each entry of every list but spaces to the 1-based number of its
/// list.
pub fn grade_mapping(grades: &[&str]) -> (r: Result<Vec<(char, u32)>, char>)
    requires
        grades@.len() < u32::MAX,
    ensures
        match (r, table_of(graded(grades@.map_values(|g: &str| g@)))) {
            (Ok(v), Ok(e)) => v@ == e,
            (Err(c), Err(d)) => c == d,
            _ => false,
        },
{
    let ghost lists = grades@.map_values(|g: &str| g@);
    let mut out: Vec<(char, u32)> = Vec::new();
    let mut g: usize = 0;
    while g < grades.len()
        invariant
            lists == grades@.map_values(|g: &str| g@),
            grades@.len() < u32::MAX,
            g <= grades@.len(),
            out@ == graded(lists.take(g as int)),
            first_repeat(out@) is None,
        decreases grades.len() - g,
    {
        let list: &str = grades[g];
        let grade = (g + 1) as u32;
        let n = list.unicode_len();
        let ghost s = list@;
        let ghost base = out@;
        assert(lists.take(g + 1).drop_last() =~= lists.take(g as int));
        assert(lists.take(g + 1).last() == s);
        let mut i: usize = 0;
        while i < n
            invariant
                n == s.len(),
                s == list@,
                i <= n,
                lists == grades@.map_values(|g: &str| g@),
                grades@.len() < u32::MAX,
                g < grades@.len(),
                s == lists[g as int],
                grade == g + 1,
                base == graded(lists.take(g as int)),
                out@ == base + tagged(entries(s, i as int), grade),
                first_repeat(out@) is None,
            decreases n - i,
        {
            let c = list.get_char(i);
            let skip = c == '\n' || (c == '\r' && i + 1 < n && list.get_char(i + 1) == '\n');
            if !skip {
                let ghost cs = entries(s, i + 1);
                assert(cs == entries(s, i as int).push(c));
                assert(cs.drop_last() =~= entries(s, i as int));
                if c != ' ' {
                    assert(base + tagged(cs, grade) =~= (base + tagged(entries(s, i as int), grade)).push((c, grade)));
                    if let Err(d) = add_entry(&mut out, c, grade) {
                        proof {
                            lemma_graded_stays(base + tagged(cs, grade), lists, g as int, s, i + 1);
                        }
                        return Err(d);
                    }
                }
            }
            i = i + 1;
        }
        g = g + 1;
    }
    assert(lists.take(g as int) =~= lists);
    Ok(out)
}

proof fn lemma_repeat_prefix(a: Seq<(char, u32)>, b: Seq<(char, u32)>)
    requires
        first_repeat(a) is Some,
    ensures
        first_repeat(a + b) == first_repeat(a),
    decreases b.len(),
{
    if b.len() == 0 {
        assert(a + b =~= a);
    } else {
        assert((a + b).drop_last() =~= a + b.drop_last());
        lemma_repeat_prefix(a, b.drop_last());
    }
}

proof fn lemma_tagged_stays(e: Seq<(char, u32)>, base: Seq<(char, u32)>, s: Seq<char>, i: int, g: u32)
    requires
        0 <= i <= s.len(),
        first_repeat(e) is Some,
        e == base + tagged(entries(s, i), g),
    ensures
        first_repeat(base + tagged(list_entries(s), g)) == first_repeat(e),
    decreases s.len() - i,
{
    if i < s.len() {
        let cs = entries(s, i + 1);
        if is_entry(s, i) {
            assert(cs.drop_last() =~= entries(s, i));
            if s[i] != ' ' {
                assert((base + tagged(cs, g)).drop_last() =~= e);
            }
        }
        lemma_tagged_stays(base + tagged(cs, g), base, s, i + 1, g);
    }
}

proof fn lemma_graded_stays(e: Seq<(char, u32)>, lists: Seq<Seq<char>>, g: int, s: Seq<char>, i: int)
    requires
        0 <= g < lists.len(),
        lists.len() < u32::MAX,
        s == lists[g],
        0 <= i <= s.len(),
        first_repeat(e) is Some,
        e == graded(lists.take(g)) + tagged(entries(s, i), (g + 1) as u32),
    ensures
        first_repeat(graded(lists)) == first_repeat(e),
    decreases lists.len() - g,
{
    lemma_tagged_stays(e, graded(lists.take(g)), s, i, (g + 1) as u32);
    assert(lists.take(g + 1).drop_last() =~= lists.take(g));
    let done = graded(lists.take(g + 1));
    assert(done == graded(lists.take(g)) + tagged(list_entries(s), (g + 1) as u32));
    lemma_graded_rest(lists, g + 1);
}

proof fn lemma_graded_rest(lists: Seq<Seq<char>>, g: int)
    requires
        0 <= g <= lists.len(),
        first_repeat(graded(lists.take(g))) is Some,
    ensures
        first_repeat(graded(lists)) == first_repeat(graded(lists.take(g))),
    decreases lists.len() - g,
{
    if g < lists.len() {
        assert(lists.take(g + 1).drop_last() =~= lists.take(g));
        lemma_repeat_prefix(graded(lists.take(g)), tagged(list_entries(lists[g]), (g + 1) as u32));
        lemma_graded_rest(lists, g + 1);
    } else {
        assert(lists.take(g) =~= lists);
    }
}

} // verus!
