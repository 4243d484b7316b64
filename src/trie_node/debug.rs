//! Text rendering of a node and everything below it: each node is written as
//! its element in square brackets when terminal and in parentheses when not,
//! followed by the braced, comma-separated renderings of its children; the
//! root, which has no element, is written as `/`.
use vstd::prelude::*;
use vstd::string::StringExecFns;

use super::TrieNode;

verus! {

/// The character of a decimal digit.
pub open spec fn digit_char(d: nat) -> char {
    if d == 0 {
        '0'
    } else if d == 1 {
        '1'
    } else if d == 2 {
        '2'
    } else if d == 3 {
        '3'
    } else if d == 4 {
        '4'
    } else if d == 5 {
        '5'
    } else if d == 6 {
        '6'
    } else if d == 7 {
        '7'
    } else if d == 8 {
        '8'
    } else {
        '9'
    }
}

/// The decimal digits of `n`, without leading zeros.
pub open spec fn decimal(n: nat) -> Seq<char>
    decreases n,
{
    if n < 10 {
        seq![digit_char(n)]
    } else {
        decimal(n / 10) + seq![digit_char(n % 10)]
    }
}

/// Appends the decimal digits of `n` to `out`.
pub(crate) fn push_decimal(out: &mut String, n: usize)
    ensures
        final(out)@ == old(out)@ + decimal(n as nat),
    decreases n,
{
    let ghost start = out@;
    if n >= 10 {
        push_decimal(out, n / 10);
    }
    let d = n % 10;
    proof {
        reveal_strlit("0");
        reveal_strlit("1");
        reveal_strlit("2");
        reveal_strlit("3");
        reveal_strlit("4");
        reveal_strlit("5");
        reveal_strlit("6");
        reveal_strlit("7");
        reveal_strlit("8");
        reveal_strlit("9");
    }
    let text = if d == 0 {
        "0"
    } else if d == 1 {
        "1"
    } else if d == 2 {
        "2"
    } else if d == 3 {
        "3"
    } else if d == 4 {
        "4"
    } else if d == 5 {
        "5"
    } else if d == 6 {
        "6"
    } else if d == 7 {
        "7"
    } else if d == 8 {
        "8"
    } else {
        "9"
    };
    assert(text@ =~= seq![digit_char(d as nat)]);
    out.append(text);
    assert(out@ =~= start + decimal(n as nat));
}

/// The bracket that opens the rendering of a terminal node or of another.
pub open spec fn open_mark(stop: bool) -> Seq<char> {
    if stop {
        seq!['[']
    } else {
        seq!['(']
    }
}

/// The bracket that closes the label of a terminal node or of another.
pub open spec fn close_mark(stop: bool) -> Seq<char> {
    if stop {
        seq![']']
    } else {
        seq![')']
    }
}

/// What stands between a label and the children.
pub open spec fn colon_text(pretty: bool) -> Seq<char> {
    if pretty {
        seq![':', ' ']
    } else {
        seq![':']
    }
}

/// What stands between two children.
pub open spec fn sep_text(pretty: bool) -> Seq<char> {
    if pretty {
        seq![',', ' ']
    } else {
        seq![',']
    }
}

/// What ends a line.
pub open spec fn line_end(pretty: bool) -> Seq<char> {
    if pretty {
        seq!['\n']
    } else {
        Seq::empty()
    }
}

/// The indentation of the children of a node indented by `indent`.
pub open spec fn child_indent_text(indent: Seq<char>, pretty: bool) -> Seq<char> {
    if pretty {
        indent + seq![' ', ' ', ' ', ' ']
    } else {
        Seq::empty()
    }
}

/// The text that `f` gives for each element (meaningful where `f` gives one
/// text for each element).
pub open spec fn text_fn<T, F: Fn(&T) -> String>(f: F) -> spec_fn(T) -> Seq<char> {
    |k: T| (choose|r: String| f.ensures((&k,), r))@
}

/// `f` can be called on every element and gives one text for each.
pub open spec fn gives_texts<T, F: Fn(&T) -> String>(f: F) -> bool {
    &&& forall|k: &T| #[trigger] f.requires((k,))
    &&& forall|k: &T, a: String, b: String|
        #[trigger] f.ensures((k,), a) && #[trigger] f.ensures((k,), b) ==> a@ == b@
}

impl<T> TrieNode<T> {
    /// The rendering of this node labelled `label`, its children indented
    /// one step deeper than `indent` in the pretty form, with `key` giving
    /// the text of each element.
    pub open spec fn rendered(
        self,
        label: Seq<char>,
        indent: Seq<char>,
        pretty: bool,
        key: spec_fn(T) -> Seq<char>,
    ) -> Seq<char>
        decreases self, self.entries().len() + 1,
    {
        let head = open_mark(self.is_terminal()) + label + close_mark(self.is_terminal()) + colon_text(pretty) + seq![
            '{',
        ];
        if self.entries().len() == 0 {
            head + seq!['}']
        } else {
            head + line_end(pretty) + self.rendered_entries(
                0,
                child_indent_text(indent, pretty),
                pretty,
                key,
            ) + (if pretty {
                indent
            } else {
                Seq::empty()
            }) + seq!['}']
        }
    }

    /// The renderings of the children from entry `i` on, each on a line of
    /// its own in the pretty form.
    pub open spec fn rendered_entries(
        self,
        i: nat,
        indent: Seq<char>,
        pretty: bool,
        key: spec_fn(T) -> Seq<char>,
    ) -> Seq<char>
        decreases self, self.entries().len() - i,
    {
        if i >= self.entries().len() {
            Seq::empty()
        } else {
            let entry = self.entries()[i as int];
            indent + entry.1.rendered(key(entry.0), indent, pretty, key) + (if i + 1
                < self.entries().len() {
                sep_text(pretty)
            } else {
                Seq::empty()
            }) + line_end(pretty) + self.rendered_entries(i + 1, indent, pretty, key)
        }
    }

    /// Appends the rendering of this node, labelled `label`, to `out`. In the
    /// pretty form every child stands on a line of its own, indented one step
    /// (four spaces) deeper than `indent`; in the compact form all stands on
    /// one line.
    #[verifier::rlimit(60)]
    pub fn render_into<F: Fn(&T) -> String>(
        &self,
        out: &mut String,
        label: &str,
        indent: &str,
        pretty: bool,
        key_text: &F,
    )
        requires
            gives_texts(*key_text),
        ensures
            final(out)@ == old(out)@ + self.rendered(label@, indent@, pretty, text_fn(*key_text)),
        decreases self,
    {
        let ghost key = text_fn(*key_text);
        let ghost start = out@;
        proof {
            reveal_strlit("[");
            reveal_strlit("]");
            reveal_strlit("(");
            reveal_strlit(")");
            reveal_strlit(": ");
            reveal_strlit(":");
            reveal_strlit("{");
            reveal_strlit("}");
            reveal_strlit("\n");
            reveal_strlit(", ");
            reveal_strlit(",");
            reveal_strlit("    ");
        }
        if self.stop {
            out.append("[");
            out.append(label);
            out.append("]");
        } else {
            out.append("(");
            out.append(label);
            out.append(")");
        }
        out.append(if pretty { ": " } else { ":" });
        out.append("{");
        let ghost head = open_mark(self.stop) + label@ + close_mark(self.stop) + colon_text(pretty)
            + seq!['{'];
        assert(out@ =~= start + head);
        let n = self.childs.len();
        if n > 0 {
            let mut child_indent = String::new();
            if pretty {
                child_indent.append(indent);
                child_indent.append("    ");
                out.append("\n");
            }
            assert(child_indent@ =~= child_indent_text(indent@, pretty));
            let ghost tail = (if pretty {
                indent@
            } else {
                Seq::empty()
            }) + seq!['}'];
            assert(out@ + self.rendered_entries(0, child_indent@, pretty, key) + tail =~= start
                + self.rendered(label@, indent@, pretty, key));
            let mut i: usize = 0;
            while i < n
                invariant
                    n == self.childs@.len(),
                    i <= n,
                    gives_texts(*key_text),
                    key == text_fn(*key_text),
                    out@ + self.rendered_entries(i as nat, child_indent@, pretty, key) + tail == start
                        + self.rendered(label@, indent@, pretty, key),
                decreases n - i,
            {
                let ghost before = out@;
                proof {
                    reveal_strlit("\n");
                    reveal_strlit(", ");
                    reveal_strlit(",");
                }
                let entry = &self.childs[i];
                out.append(child_indent.as_str());
                let text = key_text(&entry.0);
                proof {
                    let r = choose|r: String| key_text.ensures((&entry.0,), r);
                    assert(key_text.ensures((&entry.0,), r));
                    assert(text@ == r@);
                    assert(text@ == key(entry.0));
                }
                entry.1.render_into(out, text.as_str(), child_indent.as_str(), pretty, key_text);
                let ghost mid = out@;
                assert(mid =~= before + child_indent@ + entry.1.rendered(key(entry.0), child_indent@, pretty, key));
                if i + 1 < n {
                    out.append(if pretty { ", " } else { "," });
                }
                let ghost mid2 = out@;
                assert(mid2 =~= mid + (if i + 1 < n {
                    sep_text(pretty)
                } else {
                    Seq::empty()
                }));
                if pretty {
                    out.append("\n");
                }
                assert(out@ =~= mid2 + line_end(pretty));
                proof {
                    let piece = child_indent@ + entry.1.rendered(key(entry.0), child_indent@, pretty, key)
                        + (if i + 1 < n {
                        sep_text(pretty)
                    } else {
                        Seq::empty()
                    }) + line_end(pretty);
                    assert(out@ =~= before + piece);
                    assert(self.rendered_entries(i as nat, child_indent@, pretty, key) =~= piece
                        + self.rendered_entries((i + 1) as nat, child_indent@, pretty, key));
                    assert(out@ + self.rendered_entries((i + 1) as nat, child_indent@, pretty, key)
                        + tail =~= before + self.rendered_entries(i as nat, child_indent@, pretty, key)
                        + tail);
                }
                i += 1;
            }
            let ghost before = out@;
            if pretty {
                out.append(indent);
            }
            out.append("}");
            proof {
                assert(out@ =~= before + tail);
                assert(self.rendered_entries(i as nat, child_indent@, pretty, key) =~= Seq::<
                    char,
                >::empty());
                assert(before + Seq::<char>::empty() + tail =~= before + tail);
            }
        } else {
            out.append("}");
            proof {
                assert(out@ =~= start + self.rendered(label@, indent@, pretty, key));
            }
        }
    }

    /// The rendering of this node as the root, labelled `/`, in the pretty
    /// or the compact form, with `key_text` giving the text of each element.
    pub fn debug_text<F: Fn(&T) -> String>(&self, pretty: bool, key_text: F) -> (r: String)
        requires
            gives_texts(key_text),
        ensures
            r@ == self.rendered(seq!['/'], Seq::empty(), pretty, text_fn(key_text)),
    {
        let mut out = String::new();
        proof {
            reveal_strlit("/");
            reveal_strlit("");
            assert("/"@ =~= seq!['/']);
            assert(""@ =~= Seq::<char>::empty());
        }
        self.render_into(&mut out, "/", "", pretty, &key_text);
        proof {
            assert(out@ =~= self.rendered(seq!['/'], Seq::empty(), pretty, text_fn(key_text)));
        }
        out
    }
}

} // verus!
