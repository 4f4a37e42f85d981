//! Structural domain names: label sequences parsed from dotted text.

use vstd::prelude::*;
use vstd::string::StrSliceExecFns;

verus! {

/// The longest label a structural domain name may carry.
pub const MAX_LABEL_LEN: usize = 63;

/// Splitting a character sequence on a separator: the pieces between the
/// separators, in order. An empty sequence yields one empty piece; `n`
/// separators yield `n + 1` pieces.
pub open spec fn split_on(s: Seq<char>, sep: char) -> Seq<Seq<char>>
    decreases s.len(),
{
    if s.len() == 0 {
        seq![Seq::<char>::empty()]
    } else if s[0] == sep {
        seq![Seq::<char>::empty()] + split_on(s.drop_first(), sep)
    } else {
        let rest = split_on(s.drop_first(), sep);
        seq![seq![s[0]] + rest[0]] + rest.drop_first()
    }
}

/// A split has one piece more than the text has separators: never none.
pub proof fn lemma_split_len(s: Seq<char>, sep: char)
    ensures
        split_on(s, sep).len() >= 1,
    decreases s.len(),
{
    if s.len() != 0 {
        lemma_split_len(s.drop_first(), sep);
    }
}

/// If the first `i` characters hold no separator and the `i`-th is one, the
/// split is the piece before it followed by the split of what follows it.
pub proof fn lemma_split_at_sep(s: Seq<char>, sep: char, i: int)
    requires
        0 <= i < s.len(),
        s[i] == sep,
        forall|k: int| 0 <= k < i ==> s[k] != sep,
    ensures
        split_on(s, sep) =~= seq![s.take(i)] + split_on(s.skip(i + 1), sep),
    decreases i,
{
    lemma_split_len(s, sep);
    if i == 0 {
        assert(s.take(0) =~= Seq::<char>::empty());
        assert(s.skip(1) =~= s.drop_first());
    } else {
        lemma_split_at_sep(s.drop_first(), sep, i - 1);
        lemma_split_len(s.skip(i + 1), sep);
        assert(s.drop_first().take(i - 1) =~= s.take(i).drop_first());
        assert(s.drop_first().skip(i) =~= s.skip(i + 1));
        assert(seq![s[0]] + s.take(i).drop_first() =~= s.take(i));
    }
}

/// If the text holds no separator at all, the split is that one piece.
pub proof fn lemma_split_no_sep(s: Seq<char>, sep: char)
    requires
        forall|k: int| 0 <= k < s.len() ==> s[k] != sep,
    ensures
        split_on(s, sep) =~= seq![s],
    decreases s.len(),
{
    if s.len() == 0 {
        assert(s =~= Seq::<char>::empty());
    } else {
        lemma_split_no_sep(s.drop_first(), sep);
        assert(seq![s[0]] + s.drop_first() =~= s);
    }
}

/// A name may be written in absolute form, with one trailing dot; the dot
/// is not part of the last label.
pub open spec fn strip_trailing_dot(s: Seq<char>) -> Seq<char> {
    if s.len() > 0 && s.last() == '.' {
        s.drop_last()
    } else {
        s
    }
}

/// A structurally valid label: non-empty and within the length bound.
pub open spec fn valid_label(l: Seq<char>) -> bool {
    1 <= l.len() <= MAX_LABEL_LEN
}

/// The labels a dotted name denotes, leftmost (host side) first.
pub open spec fn name_labels(s: Seq<char>) -> Seq<Seq<char>> {
    split_on(strip_trailing_dot(s), '.')
}

/// Whether dotted text is a structurally valid domain name: every label
/// between the dots is valid.
pub open spec fn valid_name(s: Seq<char>) -> bool {
    forall|i: int| 0 <= i < name_labels(s).len() ==> valid_label(#[trigger] name_labels(s)[i])
}

/// The view of a label sequence: each label as its character sequence.
pub open spec fn labels_view(ls: Seq<String>) -> Seq<Seq<char>> {
    ls.map_values(|l: String| l@)
}

/// A structural domain name: the ordered labels of a dotted name, leftmost
/// (host side) first.
#[derive(Clone, Debug)]
pub struct DomainName {
    labels: Vec<String>,
}

impl View for DomainName {
    type V = Seq<Seq<char>>;

    closed spec fn view(&self) -> Seq<Seq<char>> {
        labels_view(self.labels@)
    }
}

impl DomainName {
    /// Every structural domain name holds at least one label, each valid.
    pub open spec fn wf(&self) -> bool {
        &&& self@.len() >= 1
        &&& forall|i: int| 0 <= i < self@.len() ==> valid_label(#[trigger] self@[i])
    }

    /// Parse dotted text into a structural domain name. Succeeds exactly on
    /// structurally valid names; the name's labels are the pieces of the
    /// text between the dots.
    pub fn parse(s: &str) -> (r: Option<DomainName>)
        ensures
            r is Some <==> valid_name(s@),
            r matches Some(d) ==> d@ == name_labels(s@) && d.wf(),
    {
        let n = s.unicode_len();
        let end = if n > 0 && s.get_char(n - 1) == '.' {
            n - 1
        } else {
            n
        };
        let ghost t = strip_trailing_dot(s@);
        proof {
            assert(t =~= s@.subrange(0, end as int));
            lemma_split_len(t, '.');
        }
        let mut labels: Vec<String> = Vec::new();
        let mut start: usize = 0;
        let mut i: usize = 0;
        proof {
            assert(labels_view(labels@) =~= Seq::<Seq<char>>::empty());
            assert(t.skip(0) =~= t);
        }
        while i < end
            invariant
                0 <= start <= i <= end <= s@.len(),
                t == strip_trailing_dot(s@),
                t =~= s@.subrange(0, end as int),
                forall|k: int| start <= k < i ==> t[k] != '.',
                split_on(t, '.') =~= labels_view(labels@) + split_on(t.skip(start as int), '.'),
                forall|j: int| 0 <= j < labels@.len()
                    ==> valid_label(#[trigger] labels_view(labels@)[j]),
            decreases end - i,
        {
            if s.get_char(i) == '.' {
                let plen = i - start;
                if plen < 1 || plen > MAX_LABEL_LEN {
                    proof {
                        lemma_split_at_sep(t.skip(start as int), '.', i - start);
                        assert(t.skip(start as int).take(i - start) =~= t.subrange(
                            start as int,
                            i as int,
                        ));
                        assert(name_labels(s@)[labels@.len() as int] =~= t.subrange(
                            start as int,
                            i as int,
                        ));
                    }
                    return None;
                }
                let piece = s.substring_char(start, i).to_owned();
                proof {
                    lemma_split_at_sep(t.skip(start as int), '.', i - start);
                    assert(t.skip(start as int).take(i - start) =~= t.subrange(
                        start as int,
                        i as int,
                    ));
                    assert(piece@ =~= t.subrange(start as int, i as int));
                    assert(t.skip(start as int).skip(i - start + 1) =~= t.skip(i + 1));
                    assert(labels_view(labels@.push(piece)) =~= labels_view(labels@).push(
                        piece@,
                    ));
                }
                labels.push(piece);
                start = i + 1;
            }
            i += 1;
        }
        let plen = end - start;
        proof {
            lemma_split_no_sep(t.skip(start as int), '.');
            assert(t.skip(start as int) =~= t.subrange(start as int, end as int));
        }
        if plen < 1 || plen > MAX_LABEL_LEN {
            proof {
                assert(name_labels(s@)[labels@.len() as int] =~= t.subrange(
                    start as int,
                    end as int,
                ));
            }
            return None;
        }
        let piece = s.substring_char(start, end).to_owned();
        proof {
            assert(piece@ =~= t.subrange(start as int, end as int));
            assert(labels_view(labels@.push(piece)) =~= labels_view(labels@).push(piece@));
        }
        labels.push(piece);
        proof {
            assert(split_on(t, '.') =~= labels_view(labels@));
        }
        Some(DomainName { labels })
    }

    /// The number of labels.
    pub fn label_count(&self) -> (r: usize)
        ensures
            r == self@.len(),
    {
        self.labels.len()
    }

    /// The label at a position, leftmost (host side) first.
    pub fn label_at(&self, i: usize) -> (r: &String)
        requires
            i < self@.len(),
        ensures
            r@ == self@[i as int],
    {
        &self.labels[i]
    }
}

/// The view of a name sequence: each name as its label sequences.
pub open spec fn names_view(ns: Seq<DomainName>) -> Seq<Seq<Seq<char>>> {
    ns.map_values(|d: DomainName| d@)
}

/// The characters a domain-set line may carry: ASCII letters, digits,
/// `'-'` and `'.'`. A line holding anything else is silently discarded.
pub open spec fn allowed_char(c: char) -> bool {
    ||| ('a' as u32) <= (c as u32) <= ('z' as u32)
    ||| ('A' as u32) <= (c as u32) <= ('Z' as u32)
    ||| ('0' as u32) <= (c as u32) <= ('9' as u32)
    ||| c == '-'
    ||| c == '.'
}

/// Whether a domain-set line is kept: non-blank and made of allowed
/// characters only.
pub open spec fn line_kept(l: Seq<char>) -> bool {
    l.len() > 0 && forall|i: int| 0 <= i < l.len() ==> allowed_char(#[trigger] l[i])
}

/// Decide whether a character may stand in a domain-set line.
pub fn is_allowed_char(c: char) -> (r: bool)
    ensures
        r == allowed_char(c),
{
    let u = c as u32;
    (97 <= u && u <= 122) || (65 <= u && u <= 90) || (48 <= u && u <= 57) || c == '-' || c == '.'
}

/// Decide whether a domain-set line is kept.
pub fn is_line_kept(l: &str) -> (r: bool)
    ensures
        r == line_kept(l@),
{
    let n = l.unicode_len();
    if n == 0 {
        return false;
    }
    let mut i: usize = 0;
    while i < n
        invariant
            i <= n,
            n == l@.len(),
            forall|k: int| 0 <= k < i ==> allowed_char(#[trigger] l@[k]),
        decreases n - i,
    {
        if !is_allowed_char(l.get_char(i)) {
            return false;
        }
        i += 1;
    }
    true
}

/// Split text on a separator character, each piece its own string.
pub fn split_pieces(s: &str, sep: char) -> (r: Vec<String>)
    ensures
        labels_view(r@) == split_on(s@, sep),
{
    let n = s.unicode_len();
    let mut pieces: Vec<String> = Vec::new();
    let mut start: usize = 0;
    let mut i: usize = 0;
    proof {
        assert(labels_view(pieces@) =~= Seq::<Seq<char>>::empty());
        assert(s@.skip(0) =~= s@);
    }
    while i < n
        invariant
            0 <= start <= i <= n,
            n == s@.len(),
            forall|k: int| start <= k < i ==> s@[k] != sep,
            split_on(s@, sep) =~= labels_view(pieces@) + split_on(s@.skip(start as int), sep),
        decreases n - i,
    {
        if s.get_char(i) == sep {
            let piece = s.substring_char(start, i).to_owned();
            proof {
                lemma_split_at_sep(s@.skip(start as int), sep, i - start);
                assert(s@.skip(start as int).take(i - start) =~= s@.subrange(
                    start as int,
                    i as int,
                ));
                assert(piece@ =~= s@.subrange(start as int, i as int));
                assert(s@.skip(start as int).skip(i - start + 1) =~= s@.skip(i + 1));
                assert(labels_view(pieces@.push(piece)) =~= labels_view(pieces@).push(piece@));
            }
            pieces.push(piece);
            start = i + 1;
        }
        i += 1;
    }
    let piece = s.substring_char(start, n).to_owned();
    proof {
        lemma_split_no_sep(s@.skip(start as int), sep);
        assert(s@.skip(start as int) =~= s@.subrange(start as int, n as int));
        assert(piece@ =~= s@.subrange(start as int, n as int));
        assert(labels_view(pieces@.push(piece)) =~= labels_view(pieces@).push(piece@));
        assert(split_on(s@, sep) =~= labels_view(pieces@.push(piece)));
    }
    pieces.push(piece);
    pieces
}

} // verus!
