//! What a drawing of the physical keyboard needs to decide: the glyph on each
//! physical key, and which steno keys of a layout the drawing has nowhere to
//! put.
use vstd::prelude::*;
use crate::layout::{bound_to, Layout};
use crate::stroke::StenoKey;
use crate::text::{chars_of, owned, same_text, string_of};

verus! {

/// The glyph printed on a physical key: punctuation keys show their
/// character, letter keys (`"KeyQ"`) their letter, anything else its name.
pub open spec fn key_glyph(name: Seq<char>) -> Seq<char> {
    if name == "SemiColon"@ {
        ";"@
    } else if name == "Quote"@ {
        "'"@
    } else if name == "LeftBracket"@ {
        "["@
    } else if name == "RightBracket"@ {
        "]"@
    } else if name == "Comma"@ {
        ","@
    } else if name == "Dot"@ {
        "."@
    } else if name == "Slash"@ {
        "/"@
    } else if name == "BackSlash"@ {
        "\\"@
    } else if name == "Minus"@ {
        "-"@
    } else if name == "Equal"@ {
        "="@
    } else if seq!['K', 'e', 'y'].is_prefix_of(name) {
        name.skip(3)
    } else {
        name
    }
}

/// The glyph printed on the physical key `name`.
pub fn physical_label(name: &str) -> (r: String)
    ensures
        r@ == key_glyph(name@),
{
    if same_text(name, "SemiColon") {
        return owned(";");
    }
    if same_text(name, "Quote") {
        return owned("'");
    }
    if same_text(name, "LeftBracket") {
        return owned("[");
    }
    if same_text(name, "RightBracket") {
        return owned("]");
    }
    if same_text(name, "Comma") {
        return owned(",");
    }
    if same_text(name, "Dot") {
        return owned(".");
    }
    if same_text(name, "Slash") {
        return owned("/");
    }
    if same_text(name, "BackSlash") {
        return owned("\\");
    }
    if same_text(name, "Minus") {
        return owned("-");
    }
    if same_text(name, "Equal") {
        return owned("=");
    }
    let cs = chars_of(name);
    if cs.len() >= 3 && cs[0] == 'K' && cs[1] == 'e' && cs[2] == 'y' {
        assert(seq!['K', 'e', 'y'].is_prefix_of(name@)) by {
            assert(name@.subrange(0, 3) =~= seq!['K', 'e', 'y']);
        }
        let mut rest: Vec<char> = Vec::new();
        let mut i: usize = 3;
        while i < cs.len()
            invariant
                3 <= i <= cs.len(),
                cs@ == name@,
                rest@ == name@.subrange(3, i as int),
            decreases cs.len() - i,
        {
            rest.push(cs[i]);
            assert(rest@ =~= name@.subrange(3, i + 1));
            i += 1;
        }
        assert(rest@ =~= name@.skip(3));
        return string_of(rest.as_slice());
    }
    assert(!seq!['K', 'e', 'y'].is_prefix_of(name@)) by {
        if seq!['K', 'e', 'y'].is_prefix_of(name@) {
            assert(name@[0] == 'K' && name@[1] == 'e' && name@[2] == 'y');
        }
    }
    owned(name)
}

/// Some physical key bound to the steno key `id` is drawn.
pub open spec fn is_drawn(m: Map<Seq<char>, Seq<char>>, id: Seq<char>, drawn: Set<Seq<char>>) -> bool {
    exists|p: Seq<char>| #[trigger] bound_to(m, id).contains(p) && drawn.contains(p)
}

/// The keys of `order` that no drawn physical key is bound to, in order.
pub open spec fn undrawn(order: Seq<StenoKey>, m: Map<Seq<char>, Seq<char>>, drawn: Set<Seq<char>>) -> Seq<StenoKey>
    decreases order.len(),
{
    if order.len() == 0 {
        Seq::empty()
    } else {
        undrawn(order.drop_last(), m, drawn) + if is_drawn(m, order.last().id@, drawn) {
            Seq::empty()
        } else {
            seq![order.last()]
        }
    }
}

/// The names in a list of key names.
pub open spec fn names(v: Seq<&str>) -> Set<Seq<char>> {
    v.map_values(|p: &str| p@).to_set()
}

fn drawn_contains(drawn: &[&str], p: &str) -> (b: bool)
    ensures
        b == names(drawn@).contains(p@),
{
    let mut i: usize = 0;
    while i < drawn.len()
        invariant
            i <= drawn.len(),
            forall|j: int| 0 <= j < i ==> (#[trigger] drawn@[j])@ != p@,
        decreases drawn.len() - i,
    {
        if same_text(drawn[i], p) {
            assert(drawn@.map_values(|q: &str| q@)[i as int] == p@);
            return true;
        }
        i += 1;
    }
    proof {
        let dv = drawn@.map_values(|q: &str| q@);
        if names(drawn@).contains(p@) {
            let j = choose|j: int| 0 <= j < dv.len() && #[trigger] dv[j] == p@;
            assert(drawn@[j]@ == p@);
        }
    }
    false
}

/// Steno keys of the layout that the drawing has nowhere to put: none of the
/// physical keys bound to them is among `drawn`. Surfaced rather than
/// silently left out, so someone debugging their own layout can see them.
pub fn unrendered_keys<'a>(layout: &'a Layout, drawn: &[&str]) -> (r: Vec<&'a StenoKey>)
    ensures
        r@.map_values(|k: &StenoKey| *k) == undrawn(layout.spec_order(), layout.spec_map(), names(drawn@)),
{
    let order = layout.order();
    let ghost m = layout.spec_map();
    let ghost d = names(drawn@);
    let mut r: Vec<&StenoKey> = Vec::new();
    let mut i: usize = 0;
    while i < order.len()
        invariant
            i <= order.len(),
            order@ == layout.spec_order(),
            m == layout.spec_map(),
            d == names(drawn@),
            r@.map_values(|k: &StenoKey| *k) == undrawn(order@.take(i as int), m, d),
        decreases order.len() - i,
    {
        let key = &order[i];
        let ps = layout.physical_keys_for(key.id.as_str());
        let ghost pv = ps@.map_values(|p: &str| p@);
        let mut found = false;
        let mut j: usize = 0;
        while j < ps.len()
            invariant
                j <= ps.len(),
                pv == ps@.map_values(|p: &str| p@),
                pv.to_set() == bound_to(m, key.id@),
                d == names(drawn@),
                found == exists|k: int| 0 <= k < j && d.contains(#[trigger] pv[k]),
            decreases ps.len() - j,
        {
            if drawn_contains(drawn, ps[j]) {
                assert(d.contains(pv[j as int]));
                found = true;
            }
            j += 1;
        }
        proof {
            if found {
                let k = choose|k: int| 0 <= k < j && d.contains(#[trigger] pv[k]);
                assert(pv.to_set().contains(pv[k]));
                assert(bound_to(m, key.id@).contains(pv[k]));
            } else {
                assert forall|p: Seq<char>| !(#[trigger] bound_to(m, key.id@).contains(p) && d.contains(p)) by {
                    if bound_to(m, key.id@).contains(p) {
                        assert(pv.to_set().contains(p));
                        let k = choose|k: int| 0 <= k < pv.len() && pv[k] == p;
                    }
                }
            }
        }
        assert(order@.take(i + 1).drop_last() =~= order@.take(i as int));
        assert(order@.take(i + 1).last() == order@[i as int]);
        let ghost before = r@.map_values(|k: &StenoKey| *k);
        if !found {
            r.push(key);
            assert(r@.map_values(|k: &StenoKey| *k) =~= before.push(order@[i as int]));
        } else {
            assert(r@.map_values(|k: &StenoKey| *k) =~= before);
        }
        assert(r@.map_values(|k: &StenoKey| *k) =~= undrawn(order@.take(i + 1), m, d));
        i += 1;
    }
    assert(order@.take(order.len() as int) =~= order@);
    r
}

} // verus!
