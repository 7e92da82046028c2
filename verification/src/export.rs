//! Escaping of text for the GPX (XML) export.

use vstd::prelude::*;
use vstd::string::StringSliceAdditionalSpecFns;

verus! {

/// The XML encoding of one byte: the five markup characters become entities.
pub open spec fn escape_byte(b: u8) -> Seq<u8> {
    if b == 38u8 {
        seq![38u8, 97u8, 109u8, 112u8, 59u8]  // &amp;

    } else if b == 60u8 {
        seq![38u8, 108u8, 116u8, 59u8]  // &lt;

    } else if b == 62u8 {
        seq![38u8, 103u8, 116u8, 59u8]  // &gt;

    } else if b == 34u8 {
        seq![38u8, 113u8, 117u8, 111u8, 116u8, 59u8]  // &quot;

    } else if b == 39u8 {
        seq![38u8, 97u8, 112u8, 111u8, 115u8, 59u8]  // &apos;

    } else {
        seq![b]
    }
}

/// `s` with every markup character replaced by its entity.
pub open spec fn xml_escaped(s: Seq<u8>) -> Seq<u8>
    decreases s.len(),
{
    if s.len() == 0 {
        Seq::empty()
    } else {
        xml_escaped(s.drop_last()) + escape_byte(s.last())
    }
}

/// Whether `t` starts with the bytes `entity`.
pub open spec fn starts_with(t: Seq<u8>, entity: Seq<u8>) -> bool {
    entity.len() <= t.len() && t.take(entity.len() as int) == entity
}

/// Reads XML character data back: each of the five entities `&amp;` `&lt;` `&gt;` `&quot;`
/// `&apos;` stands for its character, and every other byte stands for itself.
pub open spec fn unescaped(t: Seq<u8>) -> Seq<u8>
    decreases t.len(),
{
    if t.len() == 0 {
        Seq::empty()
    } else if starts_with(t, seq![38u8, 97u8, 109u8, 112u8, 59u8]) {
        seq![38u8] + unescaped(t.skip(5))
    } else if starts_with(t, seq![38u8, 108u8, 116u8, 59u8]) {
        seq![60u8] + unescaped(t.skip(4))
    } else if starts_with(t, seq![38u8, 103u8, 116u8, 59u8]) {
        seq![62u8] + unescaped(t.skip(4))
    } else if starts_with(t, seq![38u8, 113u8, 117u8, 111u8, 116u8, 59u8]) {
        seq![34u8] + unescaped(t.skip(6))
    } else if starts_with(t, seq![38u8, 97u8, 112u8, 111u8, 115u8, 59u8]) {
        seq![39u8] + unescaped(t.skip(6))
    } else {
        seq![t[0]] + unescaped(t.skip(1))
    }
}

proof fn lemma_escaped_concat(x: Seq<u8>, y: Seq<u8>)
    ensures
        xml_escaped(x + y) == xml_escaped(x) + xml_escaped(y),
    decreases y.len(),
{
    if y.len() == 0 {
        assert(x + y == x);
    } else {
        lemma_escaped_concat(x, y.drop_last());
        assert((x + y).drop_last() == x + y.drop_last());
        assert((x + y).last() == y.last());
    }
}

proof fn lemma_unescape_one(b: u8, rest: Seq<u8>)
    ensures
        unescaped(escape_byte(b) + rest) == seq![b] + unescaped(rest),
{
    let t = escape_byte(b) + rest;
    assert(t.len() > 0);
    if b == 38u8 {
        assert(t.take(5) =~= seq![38u8, 97u8, 109u8, 112u8, 59u8]);
        assert(t.skip(5) =~= rest);
    } else if b == 60u8 {
        assert(!starts_with(t, seq![38u8, 97u8, 109u8, 112u8, 59u8])) by {
            assert(t[1] == 108u8);
            if starts_with(t, seq![38u8, 97u8, 109u8, 112u8, 59u8]) {
                assert(t.take(5)[1] == t[1]);
            }
        }
        assert(t.take(4) =~= seq![38u8, 108u8, 116u8, 59u8]);
        assert(t.skip(4) =~= rest);
    } else if b == 62u8 {
        assert(!starts_with(t, seq![38u8, 97u8, 109u8, 112u8, 59u8])) by {
            assert(t[1] == 103u8);
            if starts_with(t, seq![38u8, 97u8, 109u8, 112u8, 59u8]) {
                assert(t.take(5)[1] == t[1]);
            }
        }
        assert(!starts_with(t, seq![38u8, 108u8, 116u8, 59u8])) by {
            assert(t[1] == 103u8);
            if starts_with(t, seq![38u8, 108u8, 116u8, 59u8]) {
                assert(t.take(4)[1] == t[1]);
            }
        }
        assert(t.take(4) =~= seq![38u8, 103u8, 116u8, 59u8]);
        assert(t.skip(4) =~= rest);
    } else if b == 34u8 {
        assert(!starts_with(t, seq![38u8, 97u8, 109u8, 112u8, 59u8])) by {
            assert(t[1] == 113u8);
            if starts_with(t, seq![38u8, 97u8, 109u8, 112u8, 59u8]) {
                assert(t.take(5)[1] == t[1]);
            }
        }
        assert(!starts_with(t, seq![38u8, 108u8, 116u8, 59u8])) by {
            assert(t[1] == 113u8);
            if starts_with(t, seq![38u8, 108u8, 116u8, 59u8]) {
                assert(t.take(4)[1] == t[1]);
            }
        }
        assert(!starts_with(t, seq![38u8, 103u8, 116u8, 59u8])) by {
            assert(t[1] == 113u8);
            if starts_with(t, seq![38u8, 103u8, 116u8, 59u8]) {
                assert(t.take(4)[1] == t[1]);
            }
        }
        assert(t.take(6) =~= seq![38u8, 113u8, 117u8, 111u8, 116u8, 59u8]);
        assert(t.skip(6) =~= rest);
    } else if b == 39u8 {
        assert(!starts_with(t, seq![38u8, 97u8, 109u8, 112u8, 59u8])) by {
            assert(t[2] == 112u8);
            if starts_with(t, seq![38u8, 97u8, 109u8, 112u8, 59u8]) {
                assert(t.take(5)[2] == t[2]);
            }
        }
        assert(!starts_with(t, seq![38u8, 108u8, 116u8, 59u8])) by {
            assert(t[1] == 97u8);
            if starts_with(t, seq![38u8, 108u8, 116u8, 59u8]) {
                assert(t.take(4)[1] == t[1]);
            }
        }
        assert(!starts_with(t, seq![38u8, 103u8, 116u8, 59u8])) by {
            assert(t[1] == 97u8);
            if starts_with(t, seq![38u8, 103u8, 116u8, 59u8]) {
                assert(t.take(4)[1] == t[1]);
            }
        }
        assert(!starts_with(t, seq![38u8, 113u8, 117u8, 111u8, 116u8, 59u8])) by {
            assert(t[1] == 97u8);
            if starts_with(t, seq![38u8, 113u8, 117u8, 111u8, 116u8, 59u8]) {
                assert(t.take(6)[1] == t[1]);
            }
        }
        assert(t.take(6) =~= seq![38u8, 97u8, 112u8, 111u8, 115u8, 59u8]);
        assert(t.skip(6) =~= rest);
    } else {
        assert(t[0] == b);
        assert(!starts_with(t, seq![38u8, 97u8, 109u8, 112u8, 59u8])) by {
            if starts_with(t, seq![38u8, 97u8, 109u8, 112u8, 59u8]) {
                assert(t.take(5)[0] == t[0]);
            }
        }
        assert(!starts_with(t, seq![38u8, 108u8, 116u8, 59u8])) by {
            if starts_with(t, seq![38u8, 108u8, 116u8, 59u8]) {
                assert(t.take(4)[0] == t[0]);
            }
        }
        assert(!starts_with(t, seq![38u8, 103u8, 116u8, 59u8])) by {
            if starts_with(t, seq![38u8, 103u8, 116u8, 59u8]) {
                assert(t.take(4)[0] == t[0]);
            }
        }
        assert(!starts_with(t, seq![38u8, 113u8, 117u8, 111u8, 116u8, 59u8])) by {
            if starts_with(t, seq![38u8, 113u8, 117u8, 111u8, 116u8, 59u8]) {
                assert(t.take(6)[0] == t[0]);
            }
        }
        assert(!starts_with(t, seq![38u8, 97u8, 112u8, 111u8, 115u8, 59u8])) by {
            if starts_with(t, seq![38u8, 97u8, 112u8, 111u8, 115u8, 59u8]) {
                assert(t.take(6)[0] == t[0]);
            }
        }
        assert(t.skip(1) =~= rest);
    }
}

/// Escaping loses nothing: reading the escaped text back, with each of the five entities
/// standing for its character and every other byte for itself, gives exactly the original
/// bytes. Every byte other than `&`, `<`, `>`, `"` and `'` is written unchanged.
pub proof fn law_escaping_is_lossless(s: Seq<u8>)
    ensures
        unescaped(xml_escaped(s)) == s,
        forall|b: u8|
            b != 38u8 && b != 60u8 && b != 62u8 && b != 34u8 && b != 39u8 ==> #[trigger] escape_byte(b)
                == seq![b],
    decreases s.len(),
{
    if s.len() > 0 {
        let rest = s.skip(1);
        law_escaping_is_lossless(rest);
        assert(s =~= seq![s[0]] + rest);
        lemma_escaped_concat(seq![s[0]], rest);
        assert(xml_escaped(seq![s[0]]) =~= escape_byte(s[0])) by {
            assert(seq![s[0]].drop_last() =~= Seq::<u8>::empty());
            assert(seq![s[0]].last() == s[0]);
            assert(xml_escaped(Seq::<u8>::empty()) =~= Seq::<u8>::empty());
            assert(Seq::<u8>::empty() + escape_byte(s[0]) =~= escape_byte(s[0]));
        }
        lemma_unescape_one(s[0], xml_escaped(rest));
    }
}

/// The UTF-8 bytes of `value` escaped for use as XML character data or attribute values.
pub fn escape_xml(value: &str) -> (r: Vec<u8>)
    ensures
        r@ == xml_escaped(value.spec_bytes()),
{
    let bytes = value.as_bytes();
    let n = bytes.len();
    let mut out: Vec<u8> = Vec::new();
    let mut i: usize = 0;
    while i < n
        invariant
            n == bytes@.len(),
            i <= n,
            out@ == xml_escaped(bytes@.take(i as int)),
        decreases n - i,
    {
        let b = bytes[i];
        assert(bytes@.take(i + 1).drop_last() == bytes@.take(i as int));
        let ghost before = out@;
        if b == 38u8 {
            out.push(38u8);
            out.push(97u8);
            out.push(109u8);
            out.push(112u8);
            out.push(59u8);
        } else if b == 60u8 {
            out.push(38u8);
            out.push(108u8);
            out.push(116u8);
            out.push(59u8);
        } else if b == 62u8 {
            out.push(38u8);
            out.push(103u8);
            out.push(116u8);
            out.push(59u8);
        } else if b == 34u8 {
            out.push(38u8);
            out.push(113u8);
            out.push(117u8);
            out.push(111u8);
            out.push(116u8);
            out.push(59u8);
        } else if b == 39u8 {
            out.push(38u8);
            out.push(97u8);
            out.push(112u8);
            out.push(111u8);
            out.push(115u8);
            out.push(59u8);
        } else {
            out.push(b);
        }
        assert(out@ == before + escape_byte(b));
        i = i + 1;
    }
    assert(bytes@.take(n as int) == bytes@);
    out
}

} // verus!
