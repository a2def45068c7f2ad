use vstd::prelude::*;
use vstd::string::StringExecFns;

use crate::model::{height, item_keys, wf};
use crate::node::Node;

verus! {

/// The character for one decimal digit.
pub open spec fn digit_char(d: u64) -> char {
    if d == 0 {
        '0'
    } else if d == 1 {
        '1'
    } else if d == 2 {
        '2'
    } else if d == 3 {
        '3'
    } else if d == 4 {
        '4'
    } else if d == 5 {
        '5'
    } else if d == 6 {
        '6'
    } else if d == 7 {
        '7'
    } else if d == 8 {
        '8'
    } else {
        '9'
    }
}

/// The decimal digits of `k`, most significant first.
pub open spec fn dec_digits(k: u64) -> Seq<char>
    decreases k,
{
    if k < 10 {
        seq![digit_char(k)]
    } else {
        dec_digits(k / 10).push(digit_char(k % 10))
    }
}

/// Two spaces of indentation per level of depth.
pub open spec fn indent_text(depth: nat) -> Seq<char>
    decreases depth,
{
    if depth == 0 {
        Seq::empty()
    } else {
        indent_text((depth - 1) as nat) + seq![' ', ' ']
    }
}

/// Each key in decimal, a space after every one.
pub open spec fn keys_text(keys: Seq<u64>) -> Seq<char>
    decreases keys.len(),
{
    if keys.len() == 0 {
        Seq::empty()
    } else {
        dec_digits(keys[0]) + seq![' '] + keys_text(keys.drop_first())
    }
}

/// The label that opens every line of the dump.
pub open spec fn node_label() -> Seq<char> {
    seq!['N', 'o', 'd', 'e', ':', ' ']
}

/// The indented pre-order dump of the subtree at `n`: one line for the node's
/// own keys, then each child's dump one level deeper.
pub open spec fn render_node<V>(n: Node<V>, depth: nat) -> Seq<char>
    decreases n, n.children@.len() + 1,
{
    indent_text(depth) + node_label() + keys_text(item_keys(n.items@)) + seq!['\n']
        + render_children(n, 0, depth)
}

/// The dumps of children `i..`, each one level deeper.
pub open spec fn render_children<V>(n: Node<V>, i: int, depth: nat) -> Seq<char>
    decreases n, n.children@.len() - i,
{
    if i < 0 || i >= n.children@.len() {
        Seq::empty()
    } else {
        render_node(n.children@[i], depth + 1) + render_children(n, i + 1, depth)
    }
}

/// Splitting a run of keys splits its text.
proof fn lemma_keys_text_concat(a: Seq<u64>, b: Seq<u64>)
    ensures
        keys_text(a + b) == keys_text(a) + keys_text(b),
    decreases a.len(),
{
    if a.len() == 0 {
        assert(a + b =~= b);
        assert(keys_text(a) + keys_text(b) =~= keys_text(b));
    } else {
        assert((a + b).drop_first() =~= a.drop_first() + b);
        lemma_keys_text_concat(a.drop_first(), b);
        assert((a + b)[0] == a[0]);
        assert(keys_text(a + b) =~= keys_text(a) + keys_text(b));
    }
}

/// Appends the decimal digits of `k`.
fn push_digits(result: &mut String, k: u64)
    ensures
        final(result)@ == old(result)@ + dec_digits(k),
    decreases k,
{
    if k >= 10 {
        push_digits(result, k / 10);
    }
    let d = k % 10;
    match d {
        0 => result.append("0"),
        1 => result.append("1"),
        2 => result.append("2"),
        3 => result.append("3"),
        4 => result.append("4"),
        5 => result.append("5"),
        6 => result.append("6"),
        7 => result.append("7"),
        8 => result.append("8"),
        _ => result.append("9"),
    }
    proof {
        reveal_strlit("0");
        reveal_strlit("1");
        reveal_strlit("2");
        reveal_strlit("3");
        reveal_strlit("4");
        reveal_strlit("5");
        reveal_strlit("6");
        reveal_strlit("7");
        reveal_strlit("8");
        reveal_strlit("9");
        if k < 10 {
            assert(final(result)@ =~= old(result)@ + dec_digits(k));
        } else {
            assert(dec_digits(k) =~= dec_digits(k / 10) + seq![digit_char(k % 10)]);
            assert(final(result)@ =~= old(result)@ + dec_digits(k));
        }
    }
}

impl<V> Node<V> {
    /// Appends this subtree's indented dump: the node's keys on one line,
    /// then each child's dump, one level deeper.
    pub fn display(&self, result: &mut String, depth: usize)
        requires
            wf(*self),
            depth + height(*self) < usize::MAX,
        ensures
            final(result)@ == old(result)@ + render_node(*self, depth as nat),
        decreases height(*self),
    {
        let ghost base = result@;
        let mut d: usize = 0;
        while d < depth
            invariant
                d <= depth,
                result@ == base + indent_text(d as nat),
            decreases depth - d,
        {
            result.append("  ");
            d += 1;
            proof {
                reveal_strlit("  ");
                assert(indent_text(d as nat) =~= indent_text((d - 1) as nat) + seq![' ', ' ']);
                assert(result@ =~= base + indent_text(d as nat));
            }
        }
        result.append("Node: ");
        proof {
            reveal_strlit("Node: ");
            assert(result@ =~= base + indent_text(depth as nat) + node_label());
        }
        let ghost line = base + indent_text(depth as nat) + node_label();
        let ghost ik = item_keys(self.items@);
        let mut j: usize = 0;
        while j < self.items.len()
            invariant
                j <= self.items@.len(),
                ik == item_keys(self.items@),
                result@ == line + keys_text(ik.subrange(0, j as int)),
            decreases self.items@.len() - j,
        {
            push_digits(result, self.items[j].key);
            result.append(" ");
            proof {
                reveal_strlit(" ");
                let a = ik.subrange(0, j as int);
                let b = seq![ik[j as int]];
                lemma_keys_text_concat(a, b);
                assert(b.drop_first() =~= Seq::<u64>::empty());
                assert(keys_text(Seq::<u64>::empty()) == Seq::<char>::empty());
                assert(keys_text(b) =~= dec_digits(ik[j as int]) + seq![' ']);
                assert(a + b =~= ik.subrange(0, j + 1));
                assert(result@ =~= line + keys_text(ik.subrange(0, j + 1)));
            }
            j += 1;
        }
        result.append("\n");
        proof {
            reveal_strlit("\n");
            assert(ik.subrange(0, ik.len() as int) =~= ik);
            assert(result@ =~= line + keys_text(ik) + seq!['\n']);
        }
        let ghost head = line + keys_text(ik) + seq!['\n'];
        let mut c: usize = 0;
        while c < self.children.len()
            invariant
                c <= self.children@.len(),
                wf(*self),
                depth + height(*self) < usize::MAX,
                depth < usize::MAX,
                head == base + indent_text(depth as nat) + node_label() + keys_text(
                    item_keys(self.items@),
                ) + seq!['\n'],
                result@ + render_children(*self, c as int, depth as nat) == head
                    + render_children(*self, 0, depth as nat),
            decreases self.children@.len() - c,
        {
            proof {
                assert(wf(self.children@[c as int]));
                assert(height(self.children@[c as int]) == height(self.children@[0]));
                assert(height(*self) == height(self.children@[0]) + 1);
            }
            let ghost before = result@;
            self.children[c].display(result, depth + 1);
            proof {
                assert(render_children(*self, c as int, depth as nat) == render_node(
                    self.children@[c as int],
                    (depth + 1) as nat,
                ) + render_children(*self, c + 1, depth as nat));
                assert(result@ + render_children(*self, c + 1, depth as nat) =~= head
                    + render_children(*self, 0, depth as nat));
            }
            c += 1;
        }
        proof {
            assert(render_children(*self, self.children@.len() as int, depth as nat)
                == Seq::<char>::empty());
            assert(result@ =~= head + render_children(*self, 0, depth as nat));
            assert(result@ =~= base + render_node(*self, depth as nat));
        }
    }
}

} // verus!
