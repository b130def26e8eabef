//! Small string helpers shared by the tag handling code.

use vstd::prelude::*;

verus! {

/// The characters of `text` that also occur in `to_keep`, in the order of `text`.
pub open spec fn kept_characters(text: Seq<char>, to_keep: Seq<char>) -> Seq<char> {
    text.filter(|c: char| to_keep.contains(c))
}

/// `String::push` appends one character to the end of the string; this
/// is taken on trust.
pub assume_specification[ String::push ](s: &mut String, c: char)
    ensures
        final(s)@ == old(s)@.push(c),
;

/// Tells whether `c` occurs in `s`.
pub fn contains_char(s: &str, c: char) -> (found: bool)
    ensures
        found == s@.contains(c),
{
    broadcast use vstd::string::axiom_spec_iter;

    let mut found = false;
    for d in it: s.chars()
        invariant
            it.seq() == s@,
            found == s@.take(it.index()).contains(c),
    {
        proof {
            let before = s@.take(it.index());
            let after = s@.take(it.index() + 1);
            assert(after == before.push(d));
            assert(after.last() == d);
            assert forall|x: char| before.contains(x) implies after.contains(x) by {
                let j = choose|j: int| 0 <= j < before.len() && before[j] == x;
                assert(after[j] == x);
            }
            assert(after.contains(c) ==> before.contains(c) || d == c) by {
                if after.contains(c) {
                    let j = choose|j: int| 0 <= j < after.len() && after[j] == c;
                    if j < before.len() {
                        assert(before[j] == c);
                    }
                }
            }
        }
        if d == c {
            found = true;
        }
    }
    assert(s@.take(s@.len() as int) == s@);
    found
}

/// The characters of `text` that occur in `to_keep`, in their order.
pub fn keep_characters(text: &str, to_keep: &str) -> (kept: String)
    ensures
        kept@ == kept_characters(text@, to_keep@),
{
    broadcast use vstd::string::axiom_spec_iter;

    let ghost keep = |c: char| to_keep@.contains(c);
    let mut kept = String::new();
    assert(text@.take(0).filter(keep) == Seq::<char>::empty()) by {
        reveal(Seq::filter);
        assert(text@.take(0) =~= Seq::<char>::empty());
    }
    for c in it: text.chars()
        invariant
            it.seq() == text@,
            keep == (|c: char| to_keep@.contains(c)),
            kept@ == text@.take(it.index()).filter(keep),
    {
        proof {
            let before = text@.take(it.index());
            assert(text@.take(it.index() + 1) == before.push(c));
            before.lemma_filter_push(c, keep);
        }
        if contains_char(to_keep, c) {
            kept.push(c);
        }
    }
    assert(text@.take(text@.len() as int) == text@);
    kept
}

/// Tells whether two texts are made of the same characters.
pub fn same_text(a: &str, b: &str) -> (same: bool)
    ensures
        same == (a@ == b@),
{
    let left = a.to_owned();
    let right = b.to_owned();
    left == right
}

/// The character of a decimal digit.
pub open spec fn digit_char(d: nat) -> char {
    if d == 0 {
        '0'
    } else if d == 1 {
        '1'
    } else if d == 2 {
        '2'
    } else if d == 3 {
        '3'
    } else if d == 4 {
        '4'
    } else if d == 5 {
        '5'
    } else if d == 6 {
        '6'
    } else if d == 7 {
        '7'
    } else if d == 8 {
        '8'
    } else {
        '9'
    }
}

/// A number in decimal digits, without leading zeros.
pub open spec fn decimal_text(n: nat) -> Seq<char>
    decreases n,
{
    if n < 10 {
        seq![digit_char(n)]
    } else {
        decimal_text(n / 10).push(digit_char(n % 10))
    }
}

/// The character of a decimal digit.
fn digit_to_char(d: u32) -> (c: char)
    requires
        d < 10,
    ensures
        c == digit_char(d as nat),
{
    if d == 0 {
        '0'
    } else if d == 1 {
        '1'
    } else if d == 2 {
        '2'
    } else if d == 3 {
        '3'
    } else if d == 4 {
        '4'
    } else if d == 5 {
        '5'
    } else if d == 6 {
        '6'
    } else if d == 7 {
        '7'
    } else if d == 8 {
        '8'
    } else {
        '9'
    }
}

/// A number in decimal digits, without leading zeros.
pub fn decimal(n: u32) -> (text: String)
    ensures
        text@ == decimal_text(n as nat),
    decreases n,
{
    if n < 10 {
        let mut text = String::new();
        text.push(digit_to_char(n));
        assert(text@ =~= seq![digit_char(n as nat)]);
        text
    } else {
        let mut text = decimal(n / 10);
        text.push(digit_to_char(n % 10));
        text
    }
}

/// The texts in a row, each with a comma and a blank behind it.
pub open spec fn listed(pieces: Seq<Seq<char>>) -> Seq<char>
    decreases pieces.len(),
{
    if pieces.len() == 0 {
        Seq::<char>::empty()
    } else {
        listed(pieces.drop_last()) + pieces.last() + seq![',', ' ']
    }
}

/// The texts in a row, with a comma and a blank between each two.
pub open spec fn joined(pieces: Seq<Seq<char>>) -> Seq<char> {
    if pieces.len() == 0 {
        Seq::<char>::empty()
    } else {
        listed(pieces.drop_last()) + pieces.last()
    }
}

/// Whether a comma with a blank behind it occurs in the text.
pub open spec fn has_separator(text: Seq<char>) -> bool {
    exists|i: int| 0 <= i < text.len() - 1 && #[trigger] text[i] == ',' && text[i + 1] == ' '
}

/// The texts that strings hold.
pub open spec fn texts(pieces: Seq<String>) -> Seq<Seq<char>> {
    Seq::new(pieces.len(), |k: int| pieces[k]@)
}

/// One more character at the end of a text without separator: the
/// separator can only stand at the very end.
proof fn lemma_separator_push(text: Seq<char>, c: char)
    requires
        !has_separator(text),
    ensures
        has_separator(text.push(c)) <==> text.len() > 0 && text.last() == ',' && c == ' ',
{
    let longer = text.push(c);
    if has_separator(longer) {
        let i = choose|i: int|
            0 <= i < longer.len() - 1 && #[trigger] longer[i] == ',' && longer[i + 1] == ' ';
        if i < text.len() - 1 {
            assert(text[i] == ',' && text[i + 1] == ' ');
        }
    }
    if text.len() > 0 && text.last() == ',' && c == ' ' {
        let i = text.len() - 1;
        assert(longer[i] == ',' && longer[i + 1] == ' ');
    }
}

/// The pieces of a list that is written with a comma and a blank between
/// each two of its pieces. A text without comma and blank is one piece.
pub fn split_list(text: &str) -> (pieces: Vec<String>)
    ensures
        pieces.len() >= 1,
        joined(texts(pieces@)) == text@,
        forall|k: int| 0 <= k < pieces.len() ==> !has_separator(#[trigger] pieces[k]@),
{
    broadcast use vstd::string::axiom_spec_iter;

    let mut pieces: Vec<String> = Vec::new();
    let mut current = String::new();
    // a comma that may turn out to start a separator
    let mut pending = false;
    proof {
        assert(texts(pieces@) =~= Seq::<Seq<char>>::empty());
        assert(text@.take(0) =~= Seq::<char>::empty());
    }
    for c in it: text.chars()
        invariant
            it.seq() == text@,
            listed(texts(pieces@)) + current@ + (if pending {
                seq![',']
            } else {
                Seq::<char>::empty()
            }) == text@.take(it.index()),
            forall|k: int| 0 <= k < pieces.len() ==> !has_separator(#[trigger] pieces[k]@),
            !has_separator(current@),
            !pending ==> current@.len() == 0 || current@.last() != ',',
    {
        let ghost before = text@.take(it.index());
        let ghost done = texts(pieces@);
        let ghost piece = current@;
        proof {
            assert(text@.take(it.index() + 1) == before.push(c));
        }
        if pending {
            if c == ' ' {
                pieces.push(current);
                current = String::new();
                pending = false;
                proof {
                    assert(texts(pieces@).drop_last() =~= done);
                    assert(texts(pieces@).last() == piece);
                    assert(listed(texts(pieces@)) + current@ + Seq::<char>::empty() =~= before.push(c));
                }
            } else {
                proof {
                    lemma_separator_push(piece, ',');
                }
                current.push(',');
                if c != ',' {
                    proof {
                        lemma_separator_push(piece.push(','), c);
                    }
                    current.push(c);
                    pending = false;
                    proof {
                        assert(listed(done) + current@ + Seq::<char>::empty() =~= before.push(c));
                    }
                } else {
                    proof {
                        assert(listed(done) + current@ + seq![','] =~= before.push(c));
                    }
                }
            }
        } else {
            if c == ',' {
                pending = true;
                proof {
                    assert(listed(done) + current@ + seq![','] =~= before.push(c));
                }
            } else {
                proof {
                    lemma_separator_push(piece, c);
                }
                current.push(c);
                proof {
                    assert(listed(done) + current@ + Seq::<char>::empty() =~= before.push(c));
                }
            }
        }
    }
    let ghost done = texts(pieces@);
    let ghost piece = current@;
    if pending {
        proof {
            lemma_separator_push(piece, ',');
        }
        current.push(',');
    }
    proof {
        assert(text@.take(text@.len() as int) == text@);
        assert(listed(done) + current@ =~= text@);
    }
    pieces.push(current);
    proof {
        assert(texts(pieces@).drop_last() =~= done);
    }
    pieces
}

} // verus!
