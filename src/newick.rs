//! Newick notation: labels made safe for it, and the text of a tree.
use vstd::prelude::*;

use crate::data::dag::children_latest_first;
use crate::data::tree::{Tree, TreeModel};
use crate::errors::{Failure, SpideogError};
use crate::text::{chars_of, decimal, push_char, push_decimal};

verus! {

/// What a label character becomes: space, `-`, `/` and `:` turn into `_`;
/// `.`, `,`, `=`, brackets, parentheses and quotes are dropped; any other
/// character stays.
pub open spec fn clean_char(c: char) -> Seq<char> {
    if c == ' ' || c == '-' || c == '/' || c == ':' {
        seq!['_']
    } else if c == '.' || c == ',' || c == '=' || c == '[' || c == ']' || c == '(' || c == ')'
        || c == '\'' || c == '"' {
        Seq::empty()
    } else {
        seq![c]
    }
}

/// A label with every character replaced as `clean_char` says.
pub open spec fn cleaned(s: Seq<char>) -> Seq<char>
    decreases s.len(),
{
    if s.len() == 0 {
        Seq::empty()
    } else {
        cleaned(s.drop_last()) + clean_char(s.last())
    }
}

/// A cleaned label holds no parenthesis, comma, colon, space, bracket or
/// quote, the characters that structure Newick text.
pub proof fn lemma_cleaned_is_safe(s: Seq<char>)
    ensures
        forall|i: int|
            0 <= i < cleaned(s).len() ==> {
                let c = #[trigger] cleaned(s)[i];
                c != '(' && c != ')' && c != ',' && c != ':' && c != ' ' && c != '['
                    && c != ']' && c != '\'' && c != '"'
            },
    decreases s.len(),
{
    if s.len() > 0 {
        lemma_cleaned_is_safe(s.drop_last());
        let p = cleaned(s.drop_last());
        let q = clean_char(s.last());
        assert(cleaned(s) == p + q);
        assert forall|i: int| 0 <= i < q.len() implies q[i] != '(' && q[i] != ')' && q[i] != ','
            && q[i] != ':' && q[i] != ' ' && q[i] != '[' && q[i] != ']' && q[i] != '\'' && q[i]
            != '"' by {}
        assert forall|i: int| p.len() <= i < cleaned(s).len() implies cleaned(s)[i] == q[i - p.len()] by {}
        assert forall|i: int| 0 <= i < p.len() implies cleaned(s)[i] == p[i] by {}
    }
}

/// A leaf of Newick text: the cleaned name, `:` and the distance.
pub open spec fn name_distance(name: Seq<char>, distance: nat) -> Seq<char> {
    cleaned(name) + seq![':'] + decimal(distance)
}

/// The text that closes a tree.
pub open spec fn newick_end() -> Seq<char> {
    seq![';', '\n']
}

/// Makes a label safe for Newick notation (see `clean_char`).
pub fn clean_name(input: &str) -> (r: String)
    ensures
        r@ == cleaned(input@),
{
    let chars = chars_of(input);
    let mut out = String::new();
    let mut i: usize = 0;
    while i < chars.len()
        invariant
            i <= chars@.len(),
            chars@ == input@,
            out@ == cleaned(chars@.subrange(0, i as int)),
        decreases chars@.len() - i,
    {
        let c = chars[i];
        assert(chars@.subrange(0, i + 1).drop_last() == chars@.subrange(0, i as int));
        if c == ' ' || c == '-' || c == '/' || c == ':' {
            push_char(&mut out, '_');
        } else if c == '.' || c == ',' || c == '=' || c == '[' || c == ']' || c == '(' || c == ')'
            || c == '\'' || c == '"' {
        } else {
            push_char(&mut out, c);
        }
        i = i + 1;
    }
    assert(chars@.subrange(0, chars@.len() as int) == chars@);
    out
}

/// Appends the leaf text of `name` at `distance` (see `name_distance`).
pub fn write_name_distance(out: &mut String, name: &str, distance: usize)
    ensures
        final(out)@ == old(out)@ + name_distance(name@, distance as nat),
{
    let clean = clean_name(name);
    out.append(clean.as_str());
    push_char(out, ':');
    push_decimal(out, distance);
}

/// The leaf text of `name` at `distance`, e.g. `Homo_sapiens:2`.
pub fn format_name_distance(name: &str, distance: usize) -> (r: String)
    ensures
        r@ == name_distance(name@, distance as nat),
{
    let mut out = String::new();
    write_name_distance(&mut out, name, distance);
    out
}

/// Appends the text that closes a tree, `;` and a line break.
pub fn write_end(out: &mut String)
    ensures
        final(out)@ == old(out)@ + newick_end(),
{
    push_char(out, ';');
    push_char(out, '\n');
}

/// The Newick text of node `n` of `m`, whose parent has indentation `pind`:
/// the texts of its children, latest first, between parentheses and
/// separated by commas, then its leaf text, at the distance between the two
/// indentations.
pub open spec fn newick_node(m: TreeModel, n: int, pind: usize) -> Result<Seq<char>, Failure>
    decreases 2 * (m.nodes.len() - n) + 1, 0int,
{
    if n < 0 || n >= m.nodes.len() {
        Err(Failure::NodeNotFound)
    } else {
        let node = m.nodes[n];
        if node.indent < pind {
            Err(Failure::InvalidDistance(node.indent, pind))
        } else {
            let label = name_distance(node.taxon.name, (node.indent - pind) as nat);
            let kids = children_latest_first(m.edges, n as usize);
            if kids.len() == 0 {
                Ok(label)
            } else {
                match newick_list(m, n, kids, kids.len() as int) {
                    Ok(t) => Ok(seq!['('] + t + seq![')'] + label),
                    Err(e) => Err(e),
                }
            }
        }
    }
}

/// The Newick texts of the first `j` of `kids`, children of node `n`,
/// separated by commas.
pub open spec fn newick_list(m: TreeModel, n: int, kids: Seq<usize>, j: int) -> Result<Seq<char>, Failure>
    decreases 2 * (m.nodes.len() - n), j,
{
    if n < 0 || n >= m.nodes.len() || j <= 0 || j > kids.len() {
        Ok(Seq::empty())
    } else {
        match newick_list(m, n, kids, j - 1) {
            Ok(prefix) => {
                let k = kids[j - 1] as int;
                if k <= n || k >= m.nodes.len() {
                    Err(Failure::NodeNotFound)
                } else {
                    match newick_node(m, k, m.nodes[n].indent) {
                        Ok(t) => Ok(
                            if j == 1 {
                                t
                            } else {
                                prefix + seq![','] + t
                            },
                        ),
                        Err(e) => Err(e),
                    }
                }
            },
            Err(e) => Err(e),
        }
    }
}

/// The Newick text of a tree, from its root, closed by `;` and a line break.
pub open spec fn newick_text(m: TreeModel) -> Result<Seq<char>, Failure> {
    if m.nodes.len() == 0 {
        Err(Failure::TreeNotInitialized)
    } else {
        match newick_node(m, 0, 0) {
            Ok(t) => Ok(t + newick_end()),
            Err(e) => Err(e),
        }
    }
}

proof fn lemma_list_failure_persists(m: TreeModel, n: int, kids: Seq<usize>, j: int, k: int)
    requires
        0 <= j <= k <= kids.len(),
        newick_list(m, n, kids, j) is Err,
    ensures
        newick_list(m, n, kids, k) == newick_list(m, n, kids, j),
    decreases k,
{
    if k > j {
        lemma_list_failure_persists(m, n, kids, j, k - 1);
    }
}

/// Appends the Newick text of node `n` of `tree`, whose parent has
/// indentation `parent_indent` (see `newick_node`).
pub fn write_children_recursively(
    out: &mut String,
    tree: &Tree,
    n: usize,
    parent_indent: usize,
) -> (r: Result<(), SpideogError>)
    requires
        tree.wf(),
        n < tree@.nodes.len(),
    ensures
        match newick_node(tree@, n as int, parent_indent) {
            Ok(t) => r.is_ok() && final(out)@ == old(out)@ + t,
            Err(f) => r matches Err(e) && e@ == f,
        },
        tree@.nodes[n as int].indent < parent_indent ==> final(out)@ == old(out)@,
    decreases tree@.nodes.len() - n,
{
    let kids = tree.children(n);
    let node = tree.node(n).unwrap();
    if node.indent < parent_indent {
        return Err(SpideogError::InvalidDistance(node.indent, parent_indent));
    }
    let distance = node.indent - parent_indent;
    if kids.len() == 0 {
        write_name_distance(out, node.taxon.name.as_str(), distance);
        return Ok(());
    }
    let ghost start = out@;
    push_char(out, '(');
    let mut j: usize = 0;
    while j < kids.len()
        invariant
            tree.wf(),
            n < tree@.nodes.len(),
            node@ == tree@.nodes[n as int],
            parent_indent <= node.indent,
            kids@.len() > 0,
            kids@ == children_latest_first(tree@.edges, n),
            forall|i: int| 0 <= i < kids@.len() ==> n < #[trigger] kids@[i] < tree@.nodes.len(),
            j <= kids@.len(),
            newick_list(tree@, n as int, kids@, j as int) matches Ok(t) && out@ == start + seq!['('] + t,
        decreases kids@.len() - j,
    {
        let ghost before = out@;
        if j > 0 {
            push_char(out, ',');
        }
        let child = kids[j];
        let res = write_children_recursively(out, tree, child, node.indent);
        match res {
            Ok(()) => {
                assert(newick_list(tree@, n as int, kids@, j as int) matches Ok(t) && before == start
                    + seq!['('] + t);
                assert(newick_list(tree@, n as int, kids@, j + 1) matches Ok(t) && out@ =~= start + seq!['(']
                    + t);
            },
            Err(e) => {
                assert(newick_list(tree@, n as int, kids@, j + 1) == Err::<Seq<char>, Failure>(e@));
                proof {
                    lemma_list_failure_persists(tree@, n as int, kids@, j + 1, kids@.len() as int);
                }
                assert(newick_node(tree@, n as int, parent_indent) == Err::<Seq<char>, Failure>(e@));
                return Err(e);
            },
        }
        j = j + 1;
    }
    push_char(out, ')');
    write_name_distance(out, node.taxon.name.as_str(), distance);
    assert(newick_list(tree@, n as int, kids@, kids@.len() as int) matches Ok(t) && out@ =~= start
        + (seq!['('] + t + seq![')'] + name_distance(node@.taxon.name, distance as nat)));
    Ok(())
}

/// Appends the Newick text of a tree (see `newick_text`).
pub fn write_newick(out: &mut String, tree: &Tree) -> (r: Result<(), SpideogError>)
    requires
        tree.wf(),
    ensures
        match newick_text(tree@) {
            Ok(t) => r.is_ok() && final(out)@ == old(out)@ + t,
            Err(f) => r matches Err(e) && e@ == f,
        },
        tree@.nodes.len() == 0 ==> final(out)@ == old(out)@,
{
    if tree.node_count() == 0 {
        return Err(SpideogError::TreeNotInitialized);
    }
    let ghost start = out@;
    write_children_recursively(out, tree, 0, 0)?;
    write_end(out);
    assert(newick_node(tree@, 0, 0) matches Ok(t) && out@ =~= start + (t + newick_end()));
    Ok(())
}

/// The Newick text of a tree (see `newick_text`).
pub fn to_newick(tree: &Tree) -> (r: Result<String, SpideogError>)
    requires
        tree.wf(),
    ensures
        match newick_text(tree@) {
            Ok(t) => r matches Ok(s) && s@ == t,
            Err(f) => r matches Err(e) && e@ == f,
        },
{
    let mut out = String::new();
    write_newick(&mut out, tree)?;
    assert(out@ =~= Seq::<char>::empty() + out@);
    Ok(out)
}

} // verus!
