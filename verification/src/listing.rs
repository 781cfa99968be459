//! The text listing of a tree: one line per node, the root first, then its
//! right subtree, then its left one, each line indented by its depth and
//! marked with the branch it hangs on.

use crate::shape::Shape;
use std::fmt::Display;
use vstd::prelude::*;
use vstd::string::to_string_from_display_ensures;

verus! {

/// The mark in front of a node: none for the root, `├R` for a right child
/// that a left sibling follows, `└R` for one that none follows, `└L` for a
/// left child.
pub open spec fn branch_mark(below_root: bool, is_right: bool, had_left: bool) -> Seq<char> {
    if below_root {
        if is_right {
            if had_left {
                "├R"@
            } else {
                "└R"@
            }
        } else {
            "└L"@
        }
    } else {
        ""@
    }
}

/// What stands in front of a node's entry on its line: the prefix handed
/// down, one blank, and the node's mark.
pub open spec fn margin(prefix: Seq<char>, below_root: bool, is_right: bool, had_left: bool) -> Seq<
    char,
> {
    prefix + " "@ + branch_mark(below_root, is_right, had_left)
}

/// The prefix a node hands down to its children: its own, one blank, and a
/// rule `│` where the node is a right child that a left sibling follows.
pub open spec fn nested_prefix(
    prefix: Seq<char>,
    below_root: bool,
    is_right: bool,
    had_left: bool,
) -> Seq<char> {
    if is_right && had_left && below_root {
        prefix + " "@ + "│"@
    } else {
        prefix + " "@
    }
}

/// `text` shows an entry as `(key,value,priority)`, each part as its
/// `Display` writes it.
pub open spec fn is_label<K: Display, V: Display, P: Display>(entry: (K, V, P), text: Seq<char>) -> bool {
    exists|k: String, v: String, p: String|
        {
            &&& #[trigger] to_string_from_display_ensures::<K>(&entry.0, k)
            &&& #[trigger] to_string_from_display_ensures::<V>(&entry.1, v)
            &&& #[trigger] to_string_from_display_ensures::<P>(&entry.2, p)
            &&& text == "("@ + k@ + ","@ + v@ + ","@ + p@ + ")"@
        }
}

/// `line` is `margin` followed by a label of `entry`.
pub open spec fn is_line<K: Display, V: Display, P: Display>(
    entry: (K, V, P),
    margin: Seq<char>,
    line: Seq<char>,
) -> bool {
    exists|label: Seq<char>| #[trigger] is_label(entry, label) && line == margin + label
}

impl<K: Ord + Display, V: Display, P: Ord + Display> Shape<K, V, P> {
    /// The margins of the listing's lines, in the order of `walk`.
    /// `below_root` says that the tree is a subtree of the one listed,
    /// `is_right` that it hangs to the right of its parent, `had_left` that
    /// the parent has a left child.
    pub open spec fn margins(
        self,
        below_root: bool,
        prefix: Seq<char>,
        is_right: bool,
        had_left: bool,
    ) -> Seq<Seq<char>>
        decreases self,
    {
        match self {
            Shape::Empty => Seq::empty(),
            Shape::Fork { left, right, .. } => {
                let nested = nested_prefix(prefix, below_root, is_right, had_left);
                seq![margin(prefix, below_root, is_right, had_left)] + right.margins(
                    true,
                    nested,
                    true,
                    self.has_left(),
                ) + left.margins(true, nested, false, self.has_left())
            },
        }
    }

    /// `lines` lists the tree from its root: one line for each node in the
    /// order of `walk`, made of the node's margin and its entry.
    pub open spec fn listed_as(self, lines: Seq<Seq<char>>) -> bool {
        &&& lines.len() == self.walk().len()
        &&& forall|i: int|
            0 <= i < lines.len() ==> is_line(
                self.walk()[i],
                self.margins(false, ""@, true, self.has_left())[i],
                #[trigger] lines[i],
            )
    }

    /// The listing has a line and a margin for each node.
    pub proof fn lemma_walk_len(
        self,
        below_root: bool,
        prefix: Seq<char>,
        is_right: bool,
        had_left: bool,
    )
        ensures
            self.walk().len() == self.size(),
            self.margins(below_root, prefix, is_right, had_left).len() == self.size(),
        decreases self,
    {
        match self {
            Shape::Empty => {},
            Shape::Fork { left, right, .. } => {
                let nested = nested_prefix(prefix, below_root, is_right, had_left);
                right.lemma_walk_len(true, nested, true, self.has_left());
                left.lemma_walk_len(true, nested, false, self.has_left());
            },
        }
    }
}

} // verus!
