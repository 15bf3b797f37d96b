use vstd::prelude::*;
use vstd::string::StringExecFns;
use crate::text::NL;
use crate::text::subvec;
use vstd::string::StrSliceExecFns;

verus! {

// ---------------------------------------------------------------------------
// The parser collaborator. The grammar and the parse itself are a black box
// that turns source bytes into a tree of nodes with byte ranges and named
// child fields; everything the rule passes read is copied out of that tree
// into the plain arena below, and all further work is verified against the
// arena.
// ---------------------------------------------------------------------------
#[verifier::external_type_specification]
#[verifier::external_body]
pub struct ExTree(tree_sitter::Tree);

#[verifier::external_type_specification]
#[verifier::external_body]
pub struct ExNode<'a>(tree_sitter::Node<'a>);

/// Whether the parser yields a tree for these bytes. Parsing with the
/// fixed, statically linked grammar is deterministic: the verdict depends
/// on the content alone.
pub uninterp spec fn ts_parses(content: Seq<u8>) -> bool;

/// Relies on tree_sitter::Parser::new, Parser::set_language with the grammar
/// from tree_sitter_go::language, and Parser::parse, to turn source bytes
/// into a parse tree; None when the grammar cannot be loaded or the parser
/// yields no tree. No timeout or cancellation flag is set, so the verdict
/// is a function of the content.
#[verifier::external_body]
fn ts_parse(content: &Vec<u8>) -> (r: Option<tree_sitter::Tree>)
    ensures
        r is Some <==> ts_parses(content@),
{
    let mut parser = tree_sitter::Parser::new();
    if parser.set_language(tree_sitter_go::language()).is_err() {
        return None;
    }
    parser.parse(content.as_slice(), None)
}

/// Relies on tree_sitter::Tree::root_node for the root of the parse tree.
#[verifier::external_body]
fn ts_root<'t>(tree: &'t tree_sitter::Tree) -> (r: tree_sitter::Node<'t>) {
    tree.root_node()
}

/// Relies on tree_sitter::Node::kind for the node's structural kind name.
#[verifier::external_body]
fn ts_kind(node: &tree_sitter::Node) -> (r: String) {
    node.kind().to_string()
}

/// Relies on tree_sitter::Node::start_byte for the node's starting offset.
#[verifier::external_body]
fn ts_start_byte(node: &tree_sitter::Node) -> (r: usize) {
    node.start_byte()
}

/// Relies on tree_sitter::Node::end_byte for the node's ending offset.
#[verifier::external_body]
fn ts_end_byte(node: &tree_sitter::Node) -> (r: usize) {
    node.end_byte()
}

/// Relies on tree_sitter::Node::named_child_count.
#[verifier::external_body]
fn ts_named_child_count(node: &tree_sitter::Node) -> (r: usize) {
    node.named_child_count()
}

/// Relies on tree_sitter::Node::named_child.
#[verifier::external_body]
fn ts_named_child<'t>(node: &tree_sitter::Node<'t>, i: usize) -> (r: Option<
    tree_sitter::Node<'t>,
>) {
    node.named_child(i)
}

/// Relies on tree_sitter::Node::child_by_field_name.
#[verifier::external_body]
fn ts_child_by_field<'t>(node: &tree_sitter::Node<'t>, field: &str) -> (r: Option<
    tree_sitter::Node<'t>,
>) {
    node.child_by_field_name(field)
}

/// Relies on tree_sitter::Node::id, unique per node within one tree.
#[verifier::external_body]
fn ts_node_id(node: &tree_sitter::Node) -> (r: usize) {
    node.id()
}

// ---------------------------------------------------------------------------
// The arena model of a parse tree.
// ---------------------------------------------------------------------------

/// Closed enumeration of the node kinds the rule passes look at; every other
/// kind is mapped to `Other`.
#[derive(Clone, Copy, PartialEq, Eq, Structural, Debug)]
pub enum NodeKind {
    SourceFile,
    PackageClause,
    ImportDeclaration,
    ImportSpec,
    FunctionDeclaration,
    SelectorExpression,
    TypeIdentifier,
    QualifiedType,
    TypeAssertionExpression,
    CallExpression,
    VarDeclaration,
    VarSpec,
    ShortVarDeclaration,
    Identifier,
    IfStatement,
    ForStatement,
    SwitchStatement,
    Block,
    ParseError,
    Other,
}

pub open spec fn kind_of_str(s: Seq<char>) -> NodeKind {
    if s == "source_file"@ {
        NodeKind::SourceFile
    } else if s == "package_clause"@ {
        NodeKind::PackageClause
    } else if s == "import_declaration"@ {
        NodeKind::ImportDeclaration
    } else if s == "import_spec"@ {
        NodeKind::ImportSpec
    } else if s == "function_declaration"@ {
        NodeKind::FunctionDeclaration
    } else if s == "selector_expression"@ {
        NodeKind::SelectorExpression
    } else if s == "type_identifier"@ {
        NodeKind::TypeIdentifier
    } else if s == "qualified_type"@ {
        NodeKind::QualifiedType
    } else if s == "type_assertion_expression"@ {
        NodeKind::TypeAssertionExpression
    } else if s == "call_expression"@ {
        NodeKind::CallExpression
    } else if s == "var_declaration"@ {
        NodeKind::VarDeclaration
    } else if s == "var_spec"@ {
        NodeKind::VarSpec
    } else if s == "short_var_declaration"@ {
        NodeKind::ShortVarDeclaration
    } else if s == "identifier"@ {
        NodeKind::Identifier
    } else if s == "if_statement"@ {
        NodeKind::IfStatement
    } else if s == "for_statement"@ {
        NodeKind::ForStatement
    } else if s == "switch_statement"@ {
        NodeKind::SwitchStatement
    } else if s == "block"@ {
        NodeKind::Block
    } else if s == "ERROR"@ {
        NodeKind::ParseError
    } else {
        NodeKind::Other
    }
}

fn string_eq_lit(s: &String, lit: &str) -> (r: bool)
    ensures
        r == (s@ == lit@),
{
    let t = String::from_str(lit);
    *s == t
}

fn kind_from_string(s: &String) -> (k: NodeKind)
    ensures
        k == kind_of_str(s@),
{
    if string_eq_lit(s, "source_file") {
        NodeKind::SourceFile
    } else if string_eq_lit(s, "package_clause") {
        NodeKind::PackageClause
    } else if string_eq_lit(s, "import_declaration") {
        NodeKind::ImportDeclaration
    } else if string_eq_lit(s, "import_spec") {
        NodeKind::ImportSpec
    } else if string_eq_lit(s, "function_declaration") {
        NodeKind::FunctionDeclaration
    } else if string_eq_lit(s, "selector_expression") {
        NodeKind::SelectorExpression
    } else if string_eq_lit(s, "type_identifier") {
        NodeKind::TypeIdentifier
    } else if string_eq_lit(s, "qualified_type") {
        NodeKind::QualifiedType
    } else if string_eq_lit(s, "type_assertion_expression") {
        NodeKind::TypeAssertionExpression
    } else if string_eq_lit(s, "call_expression") {
        NodeKind::CallExpression
    } else if string_eq_lit(s, "var_declaration") {
        NodeKind::VarDeclaration
    } else if string_eq_lit(s, "var_spec") {
        NodeKind::VarSpec
    } else if string_eq_lit(s, "short_var_declaration") {
        NodeKind::ShortVarDeclaration
    } else if string_eq_lit(s, "identifier") {
        NodeKind::Identifier
    } else if string_eq_lit(s, "if_statement") {
        NodeKind::IfStatement
    } else if string_eq_lit(s, "for_statement") {
        NodeKind::ForStatement
    } else if string_eq_lit(s, "switch_statement") {
        NodeKind::SwitchStatement
    } else if string_eq_lit(s, "block") {
        NodeKind::Block
    } else if string_eq_lit(s, "ERROR") {
        NodeKind::ParseError
    } else {
        NodeKind::Other
    }
}

/// One node of the arena: kind, byte range, parent and children links, and
/// the named-field links the rule passes use.
#[derive(Clone, Debug)]
pub struct NodeData {
    pub kind: NodeKind,
    pub kind_raw: Vec<u8>,
    pub start: usize,
    pub end: usize,
    pub parent: Option<usize>,
    pub children: Vec<usize>,
    pub f_name: Option<usize>,
    pub f_path: Option<usize>,
    pub f_operand: Option<usize>,
    pub f_package: Option<usize>,
    pub f_type: Option<usize>,
    pub f_function: Option<usize>,
    pub f_left: Option<usize>,
    pub f_body: Option<usize>,
    pub f_consequence: Option<usize>,
}

pub open spec fn field_link_wf(f: Option<usize>, i: int, len: int) -> bool {
    f matches Some(c) ==> i < c < len
}

/// Well-formedness of one arena node: the byte range lies inside the content,
/// parent links point backwards, child and field links point forwards.
pub open spec fn node_wf(nodes: Seq<NodeData>, content_len: int, i: int) -> bool {
    let n = nodes[i];
    &&& n.start <= n.end <= content_len
    &&& forall|k: int| 0 <= k < n.children@.len() ==> i < #[trigger] n.children@[k] < nodes.len() as int
    &&& (n.parent matches Some(p) ==> p < i)
    &&& field_link_wf(n.f_name, i, nodes.len() as int)
    &&& field_link_wf(n.f_path, i, nodes.len() as int)
    &&& field_link_wf(n.f_operand, i, nodes.len() as int)
    &&& field_link_wf(n.f_package, i, nodes.len() as int)
    &&& field_link_wf(n.f_type, i, nodes.len() as int)
    &&& field_link_wf(n.f_function, i, nodes.len() as int)
    &&& field_link_wf(n.f_left, i, nodes.len() as int)
    &&& field_link_wf(n.f_body, i, nodes.len() as int)
    &&& field_link_wf(n.f_consequence, i, nodes.len() as int)
}

/// A parsed source file: the file's path, its content, and the arena of
/// parse-tree nodes. All byte offsets held by a well-formed value are valid
/// indices into the owned content.
pub struct GoFile {
    pub path: Vec<u8>,
    pub content: Vec<u8>,
    pub nodes: Vec<NodeData>,
}

impl GoFile {
    pub open spec fn wf(&self) -> bool {
        &&& self.content@.len() < usize::MAX
        &&& forall|i: int|
            0 <= i < self.nodes@.len() ==> node_wf(self.nodes@, self.content@.len() as int, i)
    }
}

fn blank_node(parent: Option<usize>) -> (r: NodeData)
    ensures
        r.kind == NodeKind::Other,
        r.start == 0 && r.end == 0,
        r.parent == parent,
        r.children@ =~= Seq::<usize>::empty(),
        r.f_name is None && r.f_path is None && r.f_operand is None && r.f_package is None,
        r.f_type is None && r.f_function is None && r.f_left is None && r.f_body is None,
        r.f_consequence is None,
{
    NodeData {
        kind: NodeKind::Other,
        kind_raw: Vec::new(),
        start: 0,
        end: 0,
        parent,
        children: Vec::new(),
        f_name: None,
        f_path: None,
        f_operand: None,
        f_package: None,
        f_type: None,
        f_function: None,
        f_left: None,
        f_body: None,
        f_consequence: None,
    }
}

/// Map a field handle of the parse tree back to the arena index of the child
/// it refers to, by the node's id.
fn resolve_field<'t>(node: &tree_sitter::Node<'t>, field: &str, ids: &Vec<(usize, usize)>) -> (r:
    Option<usize>)
    ensures
        r matches Some(c) ==> exists|k: int| 0 <= k < ids@.len() && ids@[k].1 == c,
{
    match ts_child_by_field(node, field) {
        Some(c) => {
            let cid = ts_node_id(&c);
            let mut k: usize = 0;
            while k < ids.len()
                invariant
                    k <= ids@.len(),
                decreases ids@.len() - k,
            {
                if ids[k].0 == cid {
                    return Some(ids[k].1);
                }
                k += 1;
            }
            None
        },
        None => None,
    }
}

/// Copy the parse tree into a well-formed arena, breadth first.
fn build_nodes<'t>(tree: &'t tree_sitter::Tree, content_len: usize) -> (nodes: Vec<NodeData>)
    ensures
        forall|i: int| 0 <= i < nodes@.len() ==> node_wf(nodes@, content_len as int, i),
{
    let root = ts_root(tree);
    let mut nodes: Vec<NodeData> = Vec::new();
    let mut queue: Vec<tree_sitter::Node<'t>> = Vec::new();
    nodes.push(blank_node(None));
    queue.push(root);
    let mut head: usize = 0;
    // the counter gives Verus a decreasing measure for the traversal of the
    // finite tree
    let mut fuel: usize = usize::MAX;
    while head < queue.len() && fuel > 0
        invariant
            queue@.len() == nodes@.len(),
            head <= queue@.len(),
            forall|i: int| 0 <= i < nodes@.len() ==> node_wf(nodes@, content_len as int, i),
        decreases fuel,
    {
        fuel -= 1;
        let n = queue[head];
        let kind_s = ts_kind(&n);
        let kind = kind_from_string(&kind_s);
        let kind_raw = kind_s.as_str().as_bytes_vec();
        let mut start = ts_start_byte(&n);
        let mut end = ts_end_byte(&n);
        if end > content_len {
            end = content_len;
        }
        if start > end {
            start = end;
        }
        let cnt = ts_named_child_count(&n);
        let mut children: Vec<usize> = Vec::new();
        let mut ids: Vec<(usize, usize)> = Vec::new();
        let mut ci: usize = 0;
        while ci < cnt
            invariant
                queue@.len() == nodes@.len(),
                head < nodes@.len(),
                forall|i: int| 0 <= i < nodes@.len() ==> node_wf(nodes@, content_len as int, i),
                forall|k: int|
                    0 <= k < children@.len() ==> head < #[trigger] children@[k] < nodes@.len(),
                forall|k: int| 0 <= k < ids@.len() ==> head < #[trigger] ids@[k].1 < nodes@.len(),
            decreases cnt - ci,
        {
            match ts_named_child(&n, ci) {
                Some(c) => {
                    let cidx = nodes.len();
                    let ghost pre = nodes@;
                    nodes.push(blank_node(Some(head)));
                    queue.push(c);
                    children.push(cidx);
                    let cid = ts_node_id(&c);
                    ids.push((cid, cidx));
                    proof {
                        assert forall|i: int|
                            0 <= i < nodes@.len() implies node_wf(
                            nodes@,
                            content_len as int,
                            i,
                        ) by {
                            if i < pre.len() {
                                assert(node_wf(pre, content_len as int, i));
                                assert(nodes@[i] == pre[i]);
                            } else {
                                assert(nodes@[i].children@.len() == 0);
                            }
                        }
                    }
                },
                None => {},
            }
            ci += 1;
        }
        let f_name = resolve_field(&n, "name", &ids);
        let f_path = resolve_field(&n, "path", &ids);
        let f_operand = resolve_field(&n, "operand", &ids);
        let f_package = resolve_field(&n, "package", &ids);
        let f_type = resolve_field(&n, "type", &ids);
        let f_function = resolve_field(&n, "function", &ids);
        let f_left = resolve_field(&n, "left", &ids);
        let f_body = resolve_field(&n, "body", &ids);
        let f_consequence = resolve_field(&n, "consequence", &ids);
        let parent = nodes[head].parent;
        let nd = NodeData {
            kind,
            kind_raw,
            start,
            end,
            parent,
            children,
            f_name,
            f_path,
            f_operand,
            f_package,
            f_type,
            f_function,
            f_left,
            f_body,
            f_consequence,
        };
        let ghost pre2 = nodes@;
        nodes[head] = nd;
        proof {
            assert forall|i: int|
                0 <= i < nodes@.len() implies node_wf(nodes@, content_len as int, i) by {
                if i != head {
                    assert(nodes@[i] == pre2[i]);
                    assert(node_wf(pre2, content_len as int, i));
                } else {
                    assert(node_wf(pre2, content_len as int, head as int));
                    assert(nodes@[i] == nd);
                    assert(nd.parent == pre2[head as int].parent);
                    assert(field_link_wf(nd.f_name, i, nodes@.len() as int));
                    assert(field_link_wf(nd.f_path, i, nodes@.len() as int));
                    assert(field_link_wf(nd.f_operand, i, nodes@.len() as int));
                    assert(field_link_wf(nd.f_package, i, nodes@.len() as int));
                    assert(field_link_wf(nd.f_type, i, nodes@.len() as int));
                    assert(field_link_wf(nd.f_function, i, nodes@.len() as int));
                    assert(field_link_wf(nd.f_left, i, nodes@.len() as int));
                    assert(field_link_wf(nd.f_body, i, nodes@.len() as int));
                    assert(field_link_wf(nd.f_consequence, i, nodes@.len() as int));
                }
            }
        }
        head += 1;
    }
    nodes
}

/// Number of newline bytes in `s`.
pub open spec fn nl_count(s: Seq<u8>) -> int
    decreases s.len(),
{
    if s.len() == 0 {
        0
    } else {
        nl_count(s.drop_last()) + if s.last() == NL {
            1int
        } else {
            0int
        }
    }
}

/// A UTF-8 continuation byte: it belongs to the character begun by the
/// nearest non-continuation byte before it.
pub open spec fn is_cont_byte(b: u8) -> bool {
    128 <= b < 192
}

/// One-based column of the position just after `s`, counting characters
/// (not bytes) from the last newline in `s`.
pub open spec fn col_spec(s: Seq<u8>) -> int
    decreases s.len(),
{
    if s.len() == 0 {
        1
    } else if s.last() == NL {
        1
    } else if is_cont_byte(s.last()) {
        col_spec(s.drop_last())
    } else {
        1 + col_spec(s.drop_last())
    }
}

pub open spec fn clip_offset(off: int, len: int) -> int {
    if off <= len {
        off
    } else {
        len
    }
}

/// One-based line of byte offset `off` in `s`; offsets past the end count
/// the whole text, like a scan that stops at the end.
pub open spec fn line_at(s: Seq<u8>, off: int) -> int {
    1 + nl_count(s.take(clip_offset(off, s.len() as int)))
}

pub open spec fn column_at(s: Seq<u8>, off: int) -> int {
    col_spec(s.take(clip_offset(off, s.len() as int)))
}

pub proof fn lemma_pos_bounds(s: Seq<u8>)
    ensures
        0 <= nl_count(s) <= s.len(),
        1 <= col_spec(s) <= s.len() + 1,
    decreases s.len(),
{
    if s.len() > 0 {
        lemma_pos_bounds(s.drop_last());
    }
}


/// The snippet for a byte range: the requested slice when it lies inside the
/// content, and empty otherwise.
pub open spec fn snippet_spec(content: Seq<u8>, start: int, end: int) -> Seq<u8> {
    if 0 <= start && start < content.len() && start <= end && end <= content.len() {
        content.subrange(start, end)
    } else {
        Seq::empty()
    }
}

/// Indices of the arena nodes of kind `k`, in ascending order.
pub open spec fn kind_indices(nodes: Seq<NodeData>, k: NodeKind) -> Seq<usize>
    decreases nodes.len(),
{
    if nodes.len() == 0 {
        Seq::empty()
    } else {
        let prefix = kind_indices(nodes.drop_last(), k);
        if nodes.last().kind == k {
            prefix.push((nodes.len() - 1) as usize)
        } else {
            prefix
        }
    }
}

pub proof fn lemma_kind_indices(nodes: Seq<NodeData>, k: NodeKind)
    requires
        nodes.len() <= usize::MAX,
    ensures
        forall|t: int|
            0 <= t < kind_indices(nodes, k).len() ==> (#[trigger] kind_indices(nodes, k)[t]
                < nodes.len() && nodes[kind_indices(nodes, k)[t] as int].kind == k),
        forall|t1: int, t2: int|
            0 <= t1 < t2 < kind_indices(nodes, k).len() ==> kind_indices(nodes, k)[t1]
                < kind_indices(nodes, k)[t2],
        forall|i: int|
            0 <= i < nodes.len() && nodes[i].kind == k ==> kind_indices(nodes, k).contains(
                i as usize,
            ),
    decreases nodes.len(),
{
    if nodes.len() > 0 {
        lemma_kind_indices(nodes.drop_last(), k);
        let prev = kind_indices(nodes.drop_last(), k);
        let cur = kind_indices(nodes, k);
        assert forall|t: int|
            0 <= t < cur.len() implies (cur[t] < nodes.len() && nodes[cur[t] as int].kind
                == k) by {
            if t < prev.len() {
                assert(cur[t] == prev[t]);
                assert(nodes.drop_last()[prev[t] as int] == nodes[prev[t] as int]);
            } else {
                assert(cur[t] == (nodes.len() - 1) as usize);
            }
        }
        assert forall|t1: int, t2: int| 0 <= t1 < t2 < cur.len() implies cur[t1] < cur[t2] by {
            if t2 < prev.len() {
                assert(cur[t1] == prev[t1] && cur[t2] == prev[t2]);
            } else {
                assert(cur[t2] == (nodes.len() - 1) as usize);
                assert(cur[t1] == prev[t1]);
                assert(prev[t1] < nodes.drop_last().len());
            }
        }
        assert forall|i: int|
            0 <= i < nodes.len() && nodes[i].kind == k implies cur.contains(i as usize) by {
            if i < nodes.len() - 1 {
                assert(nodes.drop_last()[i] == nodes[i]);
                assert(prev.contains(i as usize));
                let t = choose|t: int| 0 <= t < prev.len() && prev[t] == i as usize;
                if nodes.last().kind == k {
                    assert(cur[t] == i as usize);
                } else {
                    assert(cur[t] == i as usize);
                }
            } else {
                assert(cur.last() == i as usize);
            }
        }
    }
}

/// The named fields a rule pass can follow from a node.
#[derive(Clone, Copy, PartialEq, Eq, Structural, Debug)]
pub enum FieldName {
    Name,
    PathField,
    Operand,
    Package,
    TypeField,
    Function,
    Left,
    Body,
    Consequence,
}

pub open spec fn field_of(n: NodeData, f: FieldName) -> Option<usize> {
    match f {
        FieldName::Name => n.f_name,
        FieldName::PathField => n.f_path,
        FieldName::Operand => n.f_operand,
        FieldName::Package => n.f_package,
        FieldName::TypeField => n.f_type,
        FieldName::Function => n.f_function,
        FieldName::Left => n.f_left,
        FieldName::Body => n.f_body,
        FieldName::Consequence => n.f_consequence,
    }
}

impl GoFile {
    /// One-based line and column of a byte offset, computed by scanning the
    /// content from the start; the column counts characters, skipping UTF-8
    /// continuation bytes. Offsets past the end give the position of the end
    /// of the content.
    pub fn get_position(&self, byte_offset: usize) -> (r: (usize, usize))
        requires
            self.wf(),
        ensures
            r.0 == line_at(self.content@, byte_offset as int),
            r.1 == column_at(self.content@, byte_offset as int),
    {
        let n = self.content.len();
        let stop = if byte_offset < n {
            byte_offset
        } else {
            n
        };
        let mut line: usize = 1;
        let mut col: usize = 1;
        let mut i: usize = 0;
        proof {
            assert(self.content@.take(0) =~= Seq::<u8>::empty());
        }
        while i < stop
            invariant
                stop <= self.content@.len() < usize::MAX,
                stop == clip_offset(byte_offset as int, self.content@.len() as int),
                i <= stop,
                line == 1 + nl_count(self.content@.take(i as int)),
                col == col_spec(self.content@.take(i as int)),
            decreases stop - i,
        {
            proof {
                assert(self.content@.take(i + 1).drop_last() =~= self.content@.take(i as int));
                assert(self.content@.take(i + 1).last() == self.content@[i as int]);
                lemma_pos_bounds(self.content@.take(i as int));
            }
            let b = self.content[i];
            if b == NL {
                line = line + 1;
                col = 1;
            } else if !(128 <= b && b < 192) {
                col = col + 1;
            }
            i += 1;
        }
        (line, col)
    }

    /// The source bytes of a byte range; empty when the range does not lie
    /// inside the content ("unavailable", not "genuinely empty").
    pub fn get_snippet(&self, start_byte: usize, end_byte: usize) -> (r: Vec<u8>)
        ensures
            r@ == snippet_spec(self.content@, start_byte as int, end_byte as int),
    {
        if start_byte >= self.content.len() || end_byte > self.content.len()
            || start_byte > end_byte {
            Vec::new()
        } else {
            subvec(&self.content, start_byte, end_byte)
        }
    }

    /// Indices of all nodes of the given structural kind, in ascending order.
    pub fn find_nodes(&self, kind: NodeKind) -> (r: Vec<usize>)
        ensures
            r@ == kind_indices(self.nodes@, kind),
    {
        let mut r: Vec<usize> = Vec::new();
        let mut i: usize = 0;
        proof {
            assert(self.nodes@.take(0) =~= Seq::<NodeData>::empty());
        }
        while i < self.nodes.len()
            invariant
                i <= self.nodes@.len(),
                r@ == kind_indices(self.nodes@.take(i as int), kind),
            decreases self.nodes@.len() - i,
        {
            proof {
                assert(self.nodes@.take(i + 1).drop_last() =~= self.nodes@.take(i as int));
                assert(self.nodes@.take(i + 1).last() == self.nodes@[i as int]);
            }
            if self.nodes[i].kind == kind {
                r.push(i);
            }
            i += 1;
        }
        proof {
            assert(self.nodes@.take(self.nodes@.len() as int) =~= self.nodes@);
        }
        r
    }

    /// The arena index of the named-field child of node `i`, if any.
    pub fn child_by_field(&self, i: usize, field: FieldName) -> (r: Option<usize>)
        requires
            self.wf(),
            i < self.nodes@.len(),
        ensures
            r == field_of(self.nodes@[i as int], field),
            r matches Some(c) ==> i < c < self.nodes@.len(),
    {
        proof {
            assert(node_wf(self.nodes@, self.content@.len() as int, i as int));
        }
        let n = &self.nodes[i];
        match field {
            FieldName::Name => n.f_name,
            FieldName::PathField => n.f_path,
            FieldName::Operand => n.f_operand,
            FieldName::Package => n.f_package,
            FieldName::TypeField => n.f_type,
            FieldName::Function => n.f_function,
            FieldName::Left => n.f_left,
            FieldName::Body => n.f_body,
            FieldName::Consequence => n.f_consequence,
        }
    }

    /// Parse Go source bytes into a well-formed syntax-tree facade; None when
    /// the parser yields no tree.
    pub fn parse_source(path: Vec<u8>, content: Vec<u8>) -> (r: Option<GoFile>)
        ensures
            r matches Some(f) ==> f.wf() && f.path@ == path@ && f.content@ == content@,
            r is Some <==> (content@.len() < usize::MAX && ts_parses(content@)),
    {
        if content.len() == usize::MAX {
            return None;
        }
        match ts_parse(&content) {
            None => None,
            Some(tree) => {
                let nodes = build_nodes(&tree, content.len());
                Some(GoFile { path, content, nodes })
            },
        }
    }

    /// Assemble a facade from plain parts, checking well-formedness; None
    /// exactly when the parts are not well-formed.
    pub fn from_parts(path: Vec<u8>, content: Vec<u8>, nodes: Vec<NodeData>) -> (r: Option<GoFile>)
        ensures
            r matches Some(f) ==> f.wf() && f.path@ == path@ && f.content@ == content@ && f.nodes@
                == nodes@,
            r is None ==> !(content@.len() < usize::MAX && forall|i: int|
                0 <= i < nodes@.len() ==> node_wf(nodes@, content@.len() as int, i)),
    {
        if content.len() == usize::MAX {
            return None;
        }
        let len = nodes.len();
        let mut i: usize = 0;
        while i < len
            invariant
                len == nodes@.len(),
                i <= len,
                forall|j: int| 0 <= j < i ==> node_wf(nodes@, content@.len() as int, j),
            decreases len - i,
        {
            if !check_node_wf(&nodes, content.len(), i) {
                return None;
            }
            i += 1;
        }
        Some(GoFile { path, content, nodes })
    }
}

/// Runtime check of `node_wf` for one node.
fn check_node_wf(nodes: &Vec<NodeData>, content_len: usize, i: usize) -> (r: bool)
    requires
        i < nodes@.len(),
    ensures
        r == node_wf(nodes@, content_len as int, i as int),
{
    let len = nodes.len();
    let n = &nodes[i];
    if !(n.start <= n.end && n.end <= content_len) {
        return false;
    }
    match n.parent {
        Some(p) => {
            if p >= i {
                return false;
            }
        },
        None => {},
    }
    let mut k: usize = 0;
    while k < n.children.len()
        invariant
            len == nodes@.len(),
            i < nodes@.len(),
            n == nodes@[i as int],
            k <= n.children@.len(),
            forall|t: int| 0 <= t < k ==> i < #[trigger] n.children@[t] < nodes@.len(),
        decreases n.children@.len() - k,
    {
        let c = n.children[k];
        if c <= i || c >= len {
            return false;
        }
        k += 1;
    }
    check_field_link(&n.f_name, i, len) && check_field_link(&n.f_path, i, len)
        && check_field_link(&n.f_operand, i, len) && check_field_link(&n.f_package, i, len)
        && check_field_link(&n.f_type, i, len) && check_field_link(&n.f_function, i, len)
        && check_field_link(&n.f_left, i, len) && check_field_link(&n.f_body, i, len)
        && check_field_link(&n.f_consequence, i, len)
}

fn check_field_link(f: &Option<usize>, i: usize, len: usize) -> (r: bool)
    ensures
        r == field_link_wf(*f, i as int, len as int),
{
    match f {
        Some(c) => i < *c && *c < len,
        None => true,
    }
}

} // verus!
