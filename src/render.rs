use vstd::prelude::*;
use vstd::string::StringExecFns;

verus! {

/// The parts separated by a comma and a space.
pub open spec fn joined(parts: Seq<Seq<char>>) -> Seq<char>
    decreases parts.len(),
{
    if parts.len() == 0 {
        Seq::empty()
    } else if parts.len() == 1 {
        parts[0]
    } else {
        joined(parts.drop_last()) + seq![',', ' '] + parts.last()
    }
}

/// The parts, joined, between square brackets.
pub open spec fn bracketed(parts: Seq<Seq<char>>) -> Seq<char> {
    seq!['['] + joined(parts) + seq![']']
}

/// The text of each string.
pub open spec fn texts(parts: Seq<String>) -> Seq<Seq<char>> {
    parts.map_values(|s: String| s@)
}

/// Renders already formatted items, greatest first, as `[a, b, c]`.
pub fn render(parts: &Vec<String>) -> (r: String)
    ensures
        r@ == bracketed(texts(parts@)),
{
    proof {
        reveal_strlit("[");
        reveal_strlit(", ");
        reveal_strlit("]");
    }
    let mut out = String::from_str("[");
    let mut i: usize = 0;
    while i < parts.len()
        invariant
            i <= parts@.len(),
            out@ == seq!['['] + joined(texts(parts@).take(i as int)),
        decreases parts@.len() - i,
    {
        let ghost before = texts(parts@).take(i as int);
        let ghost after = texts(parts@).take(i + 1);
        let ghost prev = out@;
        if i > 0 {
            out.append(", ");
        }
        out.append(parts[i].as_str());
        proof {
            assert(after.drop_last() =~= before);
            assert(after.last() == parts@[i as int]@);
            assert(after.len() == i + 1);
            if i == 0 {
                assert(joined(after) == after[0]);
                assert(out@ =~= seq!['['] + joined(after));
            } else {
                reveal_strlit(", ");
                assert(", "@ =~= seq![',', ' ']);
                assert(joined(after) == joined(before) + seq![',', ' '] + after.last());
                assert(out@ == prev + ", "@ + parts@[i as int]@);
                assert(out@ =~= seq!['['] + joined(after));
            }
        }
        i = i + 1;
    }
    out.append("]");
    proof {
        assert(texts(parts@).take(parts@.len() as int) =~= texts(parts@));
    }
    out
}

} // verus!
