use vstd::prelude::*;

verus! {

/// The texts `parts` joined, with ` + ` between consecutive ones.
pub open spec fn joined_with_plus(parts: Seq<Seq<char>>) -> Seq<char>
    decreases parts.len(),
{
    if parts.len() == 0 {
        Seq::empty()
    } else if parts.len() == 1 {
        parts[0]
    } else {
        joined_with_plus(parts.drop_last()) + " + "@ + parts.last()
    }
}

/// The text of a linear combination from the texts of its terms, in order:
/// `LC(`, the term texts separated by ` + `, then `)`.
pub fn lc_text(term_texts: &Vec<String>) -> (r: String)
    ensures
        r@ == "LC("@ + joined_with_plus(term_texts@.map_values(|t: String| t@)) + ")"@,
{
    let ghost parts = term_texts@.map_values(|t: String| t@);
    let mut out = String::from_str("LC(");
    proof {
        assert(parts.take(0) =~= Seq::<Seq<char>>::empty());
        assert("LC("@ + Seq::<char>::empty() =~= "LC("@);
    }
    for i in 0..term_texts.len()
        invariant
            parts == term_texts@.map_values(|t: String| t@),
            out@ == "LC("@ + joined_with_plus(parts.take(i as int)),
    {
        if i > 0 {
            out.append(" + ");
        }
        out.append(term_texts[i].as_str());
        proof {
            let p = parts.take(i + 1);
            assert(p.drop_last() =~= parts.take(i as int));
            assert(p.last() == term_texts@[i as int]@);
            if i == 0 {
                assert(p =~= seq![term_texts@[0]@]);
                assert(out@ =~= "LC("@ + joined_with_plus(p));
            } else {
                assert(out@ =~= "LC("@ + joined_with_plus(p));
            }
        }
    }
    proof {
        assert(parts.take(term_texts@.len() as int) =~= parts);
    }
    out.append(")");
    out
}

} // verus!
