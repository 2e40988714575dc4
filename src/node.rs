//! Nodes of the structure block and the cursors that walk them.
use crate::error::DtError;
use crate::format::{
    addressable, align4, lemma_nul_at_bounds, nul_at, lemma_token_advances, read_struct_token, read_token, token, utf8_slice, Token,
};
use crate::property::Property;
use vstd::prelude::*;
use vstd::slice::slice_subrange;
use vstd::string::StringSliceAdditionalSpecFns;

verus! {

/// The step from `off` to `next` moves forward and stays within three bytes of
/// padding past the block's end (always true of a decoded token).
pub open spec fn advances(s: Seq<u8>, off: int, next: int) -> bool {
    off < next <= s.len() + 3
}

/// The property run that starts at `off`: the `PROP` tokens up to the first
/// token that is neither `PROP` nor `NOP`, and then either the offset of that
/// token or the error that stopped the run.
pub open spec fn prop_run(s: Seq<u8>, t: Seq<u8>, off: int) -> (Seq<Token>, Result<int, DtError>)
    decreases s.len() + 4 - off,
{
    match token(s, t, off) {
        Err(e) => (seq![], Err(e)),
        Ok(tk) => {
            let next = tk.next_spec() as int;
            match tk {
                Token::Prop { .. } => if advances(s, off, next) {
                    let rest = prop_run(s, t, next);
                    (seq![tk] + rest.0, rest.1)
                } else {
                    (seq![], Err(DtError::MalformedToken))
                },
                Token::Nop { .. } => if advances(s, off, next) {
                    prop_run(s, t, next)
                } else {
                    (seq![], Err(DtError::MalformedToken))
                },
                _ => (seq![], Ok(off)),
            }
        },
    }
}

/// Scanning from `off` with `depth` nodes open: the offset just past the
/// `END_NODE` that closes the outermost of them.
pub open spec fn close(s: Seq<u8>, t: Seq<u8>, off: int, depth: nat) -> Result<int, DtError>
    decreases s.len() + 4 - off,
{
    match token(s, t, off) {
        Err(e) => Err(e),
        Ok(tk) => {
            let next = tk.next_spec() as int;
            if !advances(s, off, next) {
                Err(DtError::MalformedToken)
            } else {
                match tk {
                    Token::Begin { .. } => close(s, t, next, depth + 1),
                    Token::EndNode { .. } => if depth <= 1 {
                        Ok(next)
                    } else {
                        close(s, t, next, (depth - 1) as nat)
                    },
                    Token::End { .. } => Err(DtError::MalformedToken),
                    _ => close(s, t, next, depth),
                }
            }
        },
    }
}

/// The children that start at `off` (where a node's properties end): the
/// offset of each child's `BEGIN_NODE`, in file order, and the error that cut
/// the run short, if any.
pub open spec fn child_run(s: Seq<u8>, t: Seq<u8>, off: int) -> (Seq<int>, Option<DtError>)
    decreases s.len() + 4 - off,
{
    match token(s, t, off) {
        Err(e) => (seq![], Some(e)),
        Ok(tk) => {
            let next = tk.next_spec() as int;
            if !advances(s, off, next) {
                (seq![], Some(DtError::MalformedToken))
            } else {
                match tk {
                    Token::Begin { .. } => match close(s, t, next, 1) {
                        Err(e) => (seq![], Some(e)),
                        Ok(after) => if advances(s, off, after) {
                            let rest = child_run(s, t, after);
                            (seq![off] + rest.0, rest.1)
                        } else {
                            (seq![], Some(DtError::MalformedToken))
                        },
                    },
                    Token::Nop { .. } => child_run(s, t, next),
                    Token::Prop { .. } => (seq![], Some(DtError::MalformedToken)),
                    _ => (seq![], None),
                }
            }
        },
    }
}

/// Pre-order walk from `off` with `depth` nodes open, opening at most
/// `max_depth` nodes at once: the offset of every `BEGIN_NODE` met before the
/// outermost open node closes, and the error that cut the walk short, if any.
pub open spec fn walk(s: Seq<u8>, t: Seq<u8>, off: int, depth: nat, max_depth: nat) -> (
    Seq<int>,
    Option<DtError>,
)
    decreases s.len() + 4 - off,
{
    match token(s, t, off) {
        Err(e) => (seq![], Some(e)),
        Ok(tk) => {
            let next = tk.next_spec() as int;
            if !advances(s, off, next) {
                (seq![], Some(DtError::MalformedToken))
            } else {
                match tk {
                    Token::Begin { .. } => if depth >= max_depth {
                        (seq![], Some(DtError::TooDeep))
                    } else {
                        let rest = walk(s, t, next, depth + 1, max_depth);
                        (seq![off] + rest.0, rest.1)
                    },
                    Token::EndNode { .. } => if depth <= 1 {
                        (seq![], None)
                    } else {
                        walk(s, t, next, (depth - 1) as nat, max_depth)
                    },
                    Token::End { .. } => (seq![], Some(DtError::MalformedToken)),
                    _ => walk(s, t, next, depth, max_depth),
                }
            }
        },
    }
}

/// The offsets of all `BEGIN_NODE` tokens in the token stream from `off` up
/// to the `END` token (or the first token that cannot be decoded).
pub open spec fn begin_tokens(s: Seq<u8>, t: Seq<u8>, off: int) -> Seq<int>
    decreases s.len() + 4 - off,
{
    match token(s, t, off) {
        Err(_) => seq![],
        Ok(tk) => {
            let next = tk.next_spec() as int;
            if !advances(s, off, next) {
                seq![]
            } else {
                match tk {
                    Token::Begin { .. } => seq![off] + begin_tokens(s, t, next),
                    Token::End { .. } => seq![],
                    _ => begin_tokens(s, t, next),
                }
            }
        },
    }
}

/// The name bytes of the node whose `BEGIN_NODE` is at `off`.
pub open spec fn node_name(s: Seq<u8>, t: Seq<u8>, off: int) -> Seq<u8> {
    match token(s, t, off) {
        Ok(Token::Begin { name_end, .. }) => s.subrange(off + 4, name_end as int),
        _ => seq![],
    }
}

/// The offset where the body (properties, then children) of the node at `off` starts.
pub open spec fn node_body(s: Seq<u8>, t: Seq<u8>, off: int) -> int {
    token(s, t, off)->Ok_0.next_spec() as int
}

/// The name bytes of a `PROP` token.
pub open spec fn prop_name(t: Seq<u8>, tk: Token) -> Seq<u8> {
    match tk {
        Token::Prop { name_start, name_end, .. } => t.subrange(name_start as int, name_end as int),
        _ => seq![],
    }
}

/// `p` is the property that the `PROP` token `tk` describes.
pub open spec fn prop_matches(p: Property, s: Seq<u8>, t: Seq<u8>, tk: Token) -> bool {
    match tk {
        Token::Prop { name_start, name_end, value_start, value_end, .. } => {
            &&& p.name.spec_bytes() == t.subrange(name_start as int, name_end as int)
            &&& p.value@ == s.subrange(value_start as int, value_end as int)
        },
        _ => false,
    }
}

/// The index of the first property in `items[i..]` named `name`.
pub open spec fn first_prop_named(items: Seq<Token>, t: Seq<u8>, name: Seq<u8>, i: int) -> Option<
    int,
>
    decreases items.len() - i,
{
    if i < 0 || i >= items.len() {
        None
    } else if prop_name(t, items[i]) == name {
        Some(i)
    } else {
        first_prop_named(items, t, name, i + 1)
    }
}

/// The index of the first child in `children[i..]` named `name`.
pub open spec fn first_child_named(
    children: Seq<int>,
    s: Seq<u8>,
    t: Seq<u8>,
    name: Seq<u8>,
    i: int,
) -> Option<int>
    decreases children.len() - i,
{
    if i < 0 || i >= children.len() {
        None
    } else if node_name(s, t, children[i]) == name {
        Some(i)
    } else {
        first_child_named(children, s, t, name, i + 1)
    }
}

/// The error of a run's outcome, if it has one.
pub open spec fn error_of(r: Result<int, DtError>) -> Option<DtError> {
    match r {
        Ok(_) => None,
        Err(e) => Some(e),
    }
}

/// One node of the tree: its name and the offset of its `BEGIN_NODE` token,
/// borrowed together with the structure and strings blocks.
#[derive(Debug, Clone, Copy)]
pub struct DevTreeNode<'a> {
    pub name: &'a str,
    pub dt_struct: &'a [u8],
    pub dt_strings: &'a [u8],
    pub struct_offset: usize,
}

impl<'a> DevTreeNode<'a> {
    /// A `BEGIN_NODE` token stands at the node's offset, and `name` is its name.
    pub open spec fn wf(&self) -> bool {
        &&& addressable(self.dt_struct@)
        &&& self.dt_strings@.len() <= usize::MAX
        &&& token(self.dt_struct@, self.dt_strings@, self.struct_offset as int) is Ok
        &&& token(self.dt_struct@, self.dt_strings@, self.struct_offset as int)->Ok_0 is Begin
        &&& self.name.spec_bytes() == node_name(
            self.dt_struct@,
            self.dt_strings@,
            self.struct_offset as int,
        )
    }

    /// Offset of the node's body (properties, then children).
    pub open spec fn body(&self) -> int {
        node_body(self.dt_struct@, self.dt_strings@, self.struct_offset as int)
    }

    /// The node's properties in file order, and how their run ended.
    pub open spec fn props(&self) -> (Seq<Token>, Result<int, DtError>) {
        prop_run(self.dt_struct@, self.dt_strings@, self.body())
    }

    /// The offsets of the node's children in file order, and the error that
    /// cut them short, if any.
    pub open spec fn kids(&self) -> (Seq<int>, Option<DtError>) {
        match self.props().1 {
            Ok(stop) => child_run(self.dt_struct@, self.dt_strings@, stop),
            Err(e) => (seq![], Some(e)),
        }
    }

    /// `n` is the node at offset `off` of this node's blocks.
    pub open spec fn is_node_at(&self, n: DevTreeNode, off: int) -> bool {
        &&& n.wf()
        &&& n.dt_struct == self.dt_struct
        &&& n.dt_strings == self.dt_strings
        &&& n.struct_offset == off
    }

    /// Decodes the node whose `BEGIN_NODE` token is at `offset`.
    pub fn new_at_offset(dt_struct: &'a [u8], dt_strings: &'a [u8], offset: usize) -> (r: Result<
        Self,
        DtError,
    >)
        requires
            addressable(dt_struct@),
        ensures
            match token(dt_struct@, dt_strings@, offset as int) {
                Ok(Token::Begin { .. }) => r matches Ok(n) && n.wf() && n.dt_struct == dt_struct
                    && n.dt_strings == dt_strings && n.struct_offset == offset,
                Ok(_) => r == Err::<Self, DtError>(DtError::MalformedToken),
                Err(e) => r == Err::<Self, DtError>(e),
            },
    {
        assert(dt_strings@.len() == dt_strings.len());
        let tk = read_token(dt_struct, dt_strings, offset);
        if tk.is_ok() {
            proof {
                lemma_token_advances(dt_struct@, dt_strings@, offset as int);
            }
        }
        match tk {
            Ok(Token::Begin { name_end, .. }) => {
                match utf8_slice(dt_struct, offset + 4, name_end) {
                    Some(name) => Ok(
                        DevTreeNode { name, dt_struct, dt_strings, struct_offset: offset },
                    ),
                    None => Err(DtError::InvalidUtf8),
                }
            },
            Ok(_) => Err(DtError::MalformedToken),
            Err(e) => Err(e),
        }
    }

    /// The root node, which starts at offset 0 of the structure block.
    pub fn new_root(dt_struct: &'a [u8], dt_strings: &'a [u8]) -> (r: Result<Self, DtError>)
        ensures
            !addressable(dt_struct@) ==> r == Err::<Self, DtError>(DtError::OffsetOutOfBounds),
            addressable(dt_struct@) ==> match token(dt_struct@, dt_strings@, 0) {
                Ok(Token::Begin { .. }) => r matches Ok(n) && n.wf() && n.dt_struct == dt_struct
                    && n.dt_strings == dt_strings && n.struct_offset == 0,
                Ok(_) => r == Err::<Self, DtError>(DtError::MalformedToken),
                Err(e) => r == Err::<Self, DtError>(e),
            },
    {
        if dt_struct.len() > usize::MAX - 16 {
            return Err(DtError::OffsetOutOfBounds);
        }
        Self::new_at_offset(dt_struct, dt_strings, 0)
    }

    /// The node's name.
    pub fn name(&self) -> (r: &'a str)
        ensures
            r == self.name,
    {
        self.name
    }

    /// The raw token word at `offset` of the structure block, or `None` if it
    /// does not fit there.
    pub fn read_token(&self, offset: usize) -> (r: Option<u32>)
        ensures
            offset + 4 <= self.dt_struct@.len() ==> r == Some(
                crate::format::be32_at(self.dt_struct@, offset as int),
            ),
            offset + 4 > self.dt_struct@.len() ==> r is None,
    {
        read_struct_token(self.dt_struct, offset)
    }

    /// The byte at `offset` of the structure block, or `None` past its end.
    pub fn read_byte(&self, offset: usize) -> (r: Option<u8>)
        ensures
            offset < self.dt_struct@.len() ==> r == Some(self.dt_struct@[offset as int]),
            offset >= self.dt_struct@.len() ==> r is None,
    {
        if offset >= self.dt_struct.len() {
            None
        } else {
            Some(self.dt_struct[offset])
        }
    }

    /// Decodes the child whose `BEGIN_NODE` token is at `offset`, and finds
    /// the offset just past the `END_NODE` that closes it.
    pub fn parse_child_node(dt_struct: &'a [u8], dt_strings: &'a [u8], offset: usize) -> (r:
        Result<(Self, usize), DtError>)
        requires
            addressable(dt_struct@),
            dt_strings@.len() <= usize::MAX,
        ensures
            match token(dt_struct@, dt_strings@, offset as int) {
                Ok(Token::Begin { next, .. }) => match close(
                    dt_struct@,
                    dt_strings@,
                    next as int,
                    1,
                ) {
                    Ok(after) => r matches Ok((n, a)) && n.wf() && n.dt_struct == dt_struct
                        && n.dt_strings == dt_strings && n.struct_offset == offset && a == after,
                    Err(e) => r == Err::<(Self, usize), DtError>(e),
                },
                Ok(_) => r == Err::<(Self, usize), DtError>(DtError::MalformedToken),
                Err(e) => r == Err::<(Self, usize), DtError>(e),
            },
    {
        let node = match Self::new_at_offset(dt_struct, dt_strings, offset) {
            Ok(n) => n,
            Err(e) => {
                return Err(e);
            },
        };
        proof {
            lemma_token_advances(dt_struct@, dt_strings@, offset as int);
        }
        let body = node.body_offset();
        proof {
            if close(dt_struct@, dt_strings@, body as int, 1) is Ok {
                lemma_close_bounds(dt_struct@, dt_strings@, body as int, 1);
            }
        }
        match skip_subtree(dt_struct, dt_strings, body) {
            Ok(after) => Ok((node, after)),
            Err(e) => Err(e),
        }
    }

    fn body_offset(&self) -> (r: usize)
        requires
            self.wf(),
        ensures
            r == self.body(),
    {
        proof {
            lemma_token_advances(self.dt_struct@, self.dt_strings@, self.struct_offset as int);
        }
        read_token(self.dt_struct, self.dt_strings, self.struct_offset).unwrap().next()
    }

    /// A cursor over the node's properties, in file order.
    pub fn properties(&self) -> (r: PropertyIterator<'a>)
        requires
            self.wf(),
        ensures
            r.inv(),
            r.node == *self,
            r.rest() == (self.props().0, error_of(self.props().1)),
    {
        PropertyIterator::new(self)
    }

    /// The first property named `name`, among those before any decode error.
    pub fn property(&self, name: &str) -> (r: Option<Property<'a>>)
        requires
            self.wf(),
        ensures
            match first_prop_named(self.props().0, self.dt_strings@, name.spec_bytes(), 0) {
                Some(i) => r matches Some(p) && prop_matches(
                    p,
                    self.dt_struct@,
                    self.dt_strings@,
                    self.props().0[i],
                ),
                None => r is None,
            },
    {
        let mut it = self.properties();
        let ghost items = self.props().0;
        let ghost t = self.dt_strings@;
        let ghost mut i: int = 0;
        let key = name.as_bytes();
        assert(items.subrange(0, items.len() as int) =~= items);
        loop
            invariant
                it.inv(),
                it.node == *self,
                items == self.props().0,
                t == self.dt_strings@,
                0 <= i <= items.len(),
                it.rest().0 == items.subrange(i, items.len() as int),
                first_prop_named(items, t, name.spec_bytes(), 0) == first_prop_named(
                    items,
                    t,
                    name.spec_bytes(),
                    i,
                ),
                key@ == name.spec_bytes(),
            decreases items.len() - i,
        {
            let ghost before = it.rest().0;
            match it.next() {
                None => {
                    assert(first_prop_named(items, t, name.spec_bytes(), i) is None);
                    return None;
                },
                Some(p) => {
                    assert(before[0] == items[i]);
                    assert(p.name.spec_bytes() == prop_name(t, items[i]));
                    if bytes_eq(p.name.as_bytes(), key) {
                        assert(first_prop_named(items, t, name.spec_bytes(), i) == Some(i));
                        return Some(p);
                    }
                    proof {
                        i = i + 1;
                        assert(it.rest().0 =~= items.subrange(i, items.len() as int));
                    }
                },
            }
        }
    }
}

impl<'a> DevTreeNode<'a> {
    /// The offset where the node's children start: the first token after
    /// its name that is neither `PROP` nor `NOP`.
    fn props_end(&self) -> (r: Result<usize, DtError>)
        requires
            self.wf(),
        ensures
            match self.props().1 {
                Ok(stop) => r == Ok::<usize, DtError>(stop as usize),
                Err(e) => r == Err::<usize, DtError>(e),
            },
    {
        let s = self.dt_struct;
        let t = self.dt_strings;
        let mut off = self.body_offset();
        loop
            invariant
                self.wf(),
                s == self.dt_struct,
                t == self.dt_strings,
                prop_run(s@, t@, off as int).1 == self.props().1,
            decreases s@.len() + 4 - off,
        {
            match read_token(s, t, off) {
                Err(e) => {
                    return Err(e);
                },
                Ok(tk) => {
                    proof {
                        lemma_token_advances(s@, t@, off as int);
                    }
                    match tk {
                        Token::Prop { next, .. } => {
                            off = next;
                        },
                        Token::Nop { next } => {
                            off = next;
                        },
                        _ => {
                            return Ok(off);
                        },
                    }
                },
            }
        }
    }

    /// A cursor over the node's direct children, in file order.
    pub fn children(&self) -> (r: ChildNodeIterator<'a>)
        requires
            self.wf(),
        ensures
            r.inv(),
            r.node == *self,
            r.rest() == self.kids(),
    {
        ChildNodeIterator::new(self)
    }

    /// The first direct child named `name`, among those before any decode error.
        pub fn child(&self, name: &str) -> (r: Option<DevTreeNode<'a>>)
        requires
            self.wf(),
        ensures
            match first_child_named(
                self.kids().0,
                self.dt_struct@,
                self.dt_strings@,
                name.spec_bytes(),
                0,
            ) {
                Some(i) => r matches Some(c) && self.is_node_at(c, self.kids().0[i]),
                None => r is None,
            },
    {
        let mut it = self.children();
        let ghost kids = self.kids().0;
        let ghost s = self.dt_struct@;
        let ghost t = self.dt_strings@;
        let ghost mut i: int = 0;
        let key = name.as_bytes();
        assert(kids.subrange(0, kids.len() as int) =~= kids);
        loop
            invariant
                it.inv(),
                it.node == *self,
                kids == self.kids().0,
                s == self.dt_struct@,
                t == self.dt_strings@,
                0 <= i <= kids.len(),
                it.rest().0 == kids.subrange(i, kids.len() as int),
                first_child_named(kids, s, t, name.spec_bytes(), 0) == first_child_named(
                    kids,
                    s,
                    t,
                    name.spec_bytes(),
                    i,
                ),
                key@ == name.spec_bytes(),
            decreases kids.len() - i,
        {
            let ghost before = it.rest().0;
            match it.next() {
                None => {
                    assert(first_child_named(kids, s, t, name.spec_bytes(), i) is None);
                    return None;
                },
                Some(c) => {
                    assert(before[0] == kids[i]);
                    assert(c.name.spec_bytes() == node_name(s, t, kids[i]));
                    if bytes_eq(c.name.as_bytes(), key) {
                        assert(first_child_named(kids, s, t, name.spec_bytes(), i) == Some(i));
                        return Some(c);
                    }
                    proof {
                        i = i + 1;
                        assert(it.rest().0 =~= kids.subrange(i, kids.len() as int));
                    }
                },
            }
        }
    }

    /// Every node of the subtree rooted here, in pre-order, with at most
    /// [`DEFAULT_MAX_DEPTH`] levels open at once.
    pub fn iter_descendants(&self) -> (r: NodeIterator<'a>)
        requires
            self.wf(),
        ensures
            r.inv(),
            r.rest() == walk(
                self.dt_struct@,
                self.dt_strings@,
                self.struct_offset as int,
                0,
                DEFAULT_MAX_DEPTH as nat,
            ),
            r.dt_struct == self.dt_struct,
            r.dt_strings == self.dt_strings,
    {
        self.iter_descendants_within(DEFAULT_MAX_DEPTH)
    }

    /// Every node of the subtree rooted here, in pre-order, with at most
    /// `max_depth` levels open at once; a deeper tree ends the walk with
    /// [`DtError::TooDeep`].
    pub fn iter_descendants_within(&self, max_depth: usize) -> (r: NodeIterator<'a>)
        requires
            self.wf(),
        ensures
            r.inv(),
            r.rest() == walk(
                self.dt_struct@,
                self.dt_strings@,
                self.struct_offset as int,
                0,
                max_depth as nat,
            ),
            r.dt_struct == self.dt_struct,
            r.dt_strings == self.dt_strings,
    {
        NodeIterator::new(self, max_depth)
    }
}

/// A property run that ends normally ends on a token inside the block.
pub proof fn lemma_prop_run_stop(s: Seq<u8>, t: Seq<u8>, off: int)
    ensures
        prop_run(s, t, off).1 matches Ok(stop) ==> 0 <= stop && stop + 4 <= s.len(),
    decreases s.len() + 4 - off,
{
    if let Ok(tk) = token(s, t, off) {
        let next = tk.next_spec() as int;
        if advances(s, off, next) {
            lemma_prop_run_stop(s, t, next);
        }
    }
}

/// How many levels [`DevTreeNode::iter_descendants`] opens at most.
pub const DEFAULT_MAX_DEPTH: usize = 64;

/// A scan that ends in `Ok(c)` ends strictly after it began and inside the block.
pub proof fn lemma_close_bounds(s: Seq<u8>, t: Seq<u8>, off: int, depth: nat)
    requires
        close(s, t, off, depth) is Ok,
    ensures
        off < close(s, t, off, depth)->Ok_0 <= s.len(),
    decreases s.len() + 4 - off,
{
    let tk = token(s, t, off)->Ok_0;
    let next = tk.next_spec() as int;
    match tk {
        Token::Begin { .. } => lemma_close_bounds(s, t, next, depth + 1),
        Token::EndNode { .. } => if depth > 1 {
            lemma_close_bounds(s, t, next, (depth - 1) as nat);
        },
        Token::End { .. } => {},
        _ => lemma_close_bounds(s, t, next, depth),
    }
}

/// Offset just past the `END_NODE` that closes the node whose body starts at `start`.
fn skip_subtree(s: &[u8], t: &[u8], start: usize) -> (r: Result<usize, DtError>)
    requires
        addressable(s@),
        t@.len() <= usize::MAX,
        start <= s@.len() + 3,
    ensures
        match close(s@, t@, start as int, 1) {
            Ok(c) => r == Ok::<usize, DtError>(c as usize),
            Err(e) => r == Err::<usize, DtError>(e),
        },
{
    let mut off = start;
    let mut depth: usize = 1;
    loop
        invariant
            addressable(s@),
            t@.len() <= usize::MAX,
            1 <= depth <= off - start + 1,
            start <= off <= s@.len() + 3,
            close(s@, t@, off as int, depth as nat) == close(s@, t@, start as int, 1),
        decreases s@.len() + 4 - off,
    {
        match read_token(s, t, off) {
            Err(e) => {
                return Err(e);
            },
            Ok(tk) => {
                proof {
                    lemma_token_advances(s@, t@, off as int);
                }
                let next = tk.next();
                match tk {
                    Token::Begin { .. } => {
                        depth = depth + 1;
                    },
                    Token::EndNode { .. } => {
                        if depth == 1 {
                            return Ok(next);
                        }
                        depth = depth - 1;
                    },
                    Token::End { .. } => {
                        return Err(DtError::MalformedToken);
                    },
                    _ => {},
                }
                off = next;
            },
        }
    }
}

/// Whether two byte strings are equal.
pub fn bytes_eq(a: &[u8], b: &[u8]) -> (r: bool)
    ensures
        r == (a@ == b@),
{
    if a.len() != b.len() {
        return false;
    }
    let mut i: usize = 0;
    while i < a.len()
        invariant
            a@.len() == b@.len(),
            0 <= i <= a@.len(),
            forall|k: int| 0 <= k < i ==> a@[k] == b@[k],
        decreases a@.len() - i,
    {
        if a[i] != b[i] {
            return false;
        }
        i = i + 1;
    }
    assert(a@ =~= b@);
    true
}

/// Cursor over a node's properties, in file order. `NOP` tokens are skipped.
/// It tells a run that ended normally (at the node's children or end) from one
/// cut short by a decode error: see [`PropertyIterator::error`].
pub struct PropertyIterator<'a> {
    pub node: DevTreeNode<'a>,
    pub offset: usize,
    pub error: Option<DtError>,
    pub done: bool,
}

impl<'a> PropertyIterator<'a> {
    /// The node is well formed, and an error is only recorded once the run has ended.
    pub open spec fn inv(&self) -> bool {
        &&& self.node.wf()
        &&& !self.done ==> self.error is None
    }

    /// A cursor at the first property of `node`: just past its name, aligned.
    pub fn new(node: &DevTreeNode<'a>) -> (r: Self)
        requires
            node.wf(),
        ensures
            r.inv(),
            r.node == *node,
            r.rest() == (node.props().0, error_of(node.props().1)),
    {
        PropertyIterator { node: *node, offset: node.body_offset(), error: None, done: false }
    }

    /// The properties this cursor has still to yield, and how the run ends.
    pub open spec fn rest(&self) -> (Seq<Token>, Option<DtError>) {
        if self.done {
            (seq![], self.error)
        } else {
            let r = prop_run(self.node.dt_struct@, self.node.dt_strings@, self.offset as int);
            (r.0, error_of(r.1))
        }
    }

    /// The next property; `None` once the run has ended, normally or not.
    pub fn next(&mut self) -> (r: Option<Property<'a>>)
        requires
            old(self).inv(),
        ensures
            final(self).inv(),
            final(self).node == old(self).node,
            old(self).rest().0.len() > 0 ==> (r matches Some(p) && prop_matches(
                p,
                old(self).node.dt_struct@,
                old(self).node.dt_strings@,
                old(self).rest().0[0],
            ) && final(self).rest() == (old(self).rest().0.drop_first(), old(self).rest().1)),
            old(self).rest().0.len() == 0 ==> (r is None && final(self).done && final(self).error
                == old(self).rest().1),
    {
        if self.done {
            return None;
        }
        let s = self.node.dt_struct;
        let t = self.node.dt_strings;
        loop
            invariant
                self.inv(),
                !self.done,
                self.node == old(self).node,
                s == self.node.dt_struct,
                t == self.node.dt_strings,
                self.rest() == old(self).rest(),
            decreases s@.len() + 4 - self.offset,
        {
            let ghost off = self.offset as int;
            match read_token(s, t, self.offset) {
                Err(e) => {
                    self.done = true;
                    self.error = Some(e);
                    return None;
                },
                Ok(tk) => {
                    proof {
                        lemma_token_advances(s@, t@, off);
                    }
                    match tk {
                        Token::Prop { name_start, name_end, value_start, value_end, next } => {
                            let name = utf8_slice(t, name_start, name_end).unwrap();
                            let value = slice_subrange(s, value_start, value_end);
                            self.offset = next;
                            return Some(Property { name, value });
                        },
                        Token::Nop { next } => {
                            self.offset = next;
                        },
                        _ => {
                            self.done = true;
                            return None;
                        },
                    }
                },
            }
        }
    }

    /// The error that ended the run, or `None` while it runs or after it
    /// ended normally.
    pub fn error(&self) -> (r: Option<DtError>)
        ensures
            r == self.error,
    {
        self.error
    }
}

} // verus!

verus! {

/// Cursor over a node's direct children, in file order. Each step skips the
/// whole subtree of the child it yields, so the cursor lands on the next sibling.
pub struct ChildNodeIterator<'a> {
    pub node: DevTreeNode<'a>,
    pub offset: usize,
    pub error: Option<DtError>,
    pub done: bool,
}

impl<'a> ChildNodeIterator<'a> {
    /// The node is well formed, and an error is only recorded once the run has ended.
    pub open spec fn inv(&self) -> bool {
        &&& self.node.wf()
        &&& !self.done ==> self.error is None
    }

    /// A cursor at the first child of `node`: where its properties end. If
    /// the properties cannot be decoded, the cursor starts out ended, with
    /// that error.
    pub fn new(node: &DevTreeNode<'a>) -> (r: Self)
        requires
            node.wf(),
        ensures
            r.inv(),
            r.node == *node,
            r.rest() == node.kids(),
    {
        proof {
            reveal(ChildNodeIterator::rest);
            lemma_prop_run_stop(node.dt_struct@, node.dt_strings@, node.body());
        }
        match node.props_end() {
            Ok(offset) => ChildNodeIterator { node: *node, offset, error: None, done: false },
            Err(e) => ChildNodeIterator { node: *node, offset: 0, error: Some(e), done: true },
        }
    }

    /// The children this cursor has still to yield, and how the run ends.
    #[verifier::opaque]
    pub open spec fn rest(&self) -> (Seq<int>, Option<DtError>) {
        if self.done {
            (seq![], self.error)
        } else {
            child_run(self.node.dt_struct@, self.node.dt_strings@, self.offset as int)
        }
    }

    /// The next child; `None` once the run has ended, normally or not.
    pub fn next(&mut self) -> (r: Option<DevTreeNode<'a>>)
        requires
            old(self).inv(),
        ensures
            final(self).inv(),
            final(self).node == old(self).node,
            old(self).rest().0.len() > 0 ==> (r matches Some(c) && old(self).node.is_node_at(
                c,
                old(self).rest().0[0],
            ) && final(self).rest() == (old(self).rest().0.drop_first(), old(self).rest().1)),
            old(self).rest().0.len() == 0 ==> (r is None && final(self).done && final(self).error
                == old(self).rest().1),
    {
        reveal(ChildNodeIterator::rest);
        if self.done {
            return None;
        }
        let s = self.node.dt_struct;
        let t = self.node.dt_strings;
        loop
            invariant
                self.inv(),
                !self.done,
                self.node == old(self).node,
                s == self.node.dt_struct,
                t == self.node.dt_strings,
                self.rest() == old(self).rest(),
            decreases s@.len() + 4 - self.offset,
        {
            proof {
                reveal(ChildNodeIterator::rest);
            }
            let off = self.offset;
            match read_token(s, t, off) {
                Err(e) => {
                    self.done = true;
                    self.error = Some(e);
                    return None;
                },
                Ok(tk) => {
                    proof {
                        lemma_token_advances(s@, t@, off as int);
                    }
                    match tk {
                        Token::Begin { next, .. } => {
                            match DevTreeNode::parse_child_node(s, t, off) {
                                Err(e) => {
                                    self.done = true;
                                    self.error = Some(e);
                                    return None;
                                },
                                Ok((child, after)) => {
                                    proof {
                                        lemma_close_bounds(s@, t@, next as int, 1);
                                    }
                                    self.offset = after;
                                    return Some(child);
                                },
                            }
                        },
                        Token::Nop { next } => {
                            self.offset = next;
                        },
                        Token::Prop { .. } => {
                            self.done = true;
                            self.error = Some(DtError::MalformedToken);
                            return None;
                        },
                        _ => {
                            self.done = true;
                            return None;
                        },
                    }
                },
            }
        }
    }

    /// The error that ended the run, or `None` while it runs or after it
    /// ended normally.
    pub fn error(&self) -> (r: Option<DtError>)
        ensures
            r == self.error,
    {
        self.error
    }
}

/// Pre-order walk over a subtree. Siblings follow one another directly in the
/// token stream, so the stack of open child cursors that a depth-first walk
/// keeps reduces to one stream offset and the number of open levels, which is
/// bounded by `max_depth`.
pub struct NodeIterator<'a> {
    pub dt_struct: &'a [u8],
    pub dt_strings: &'a [u8],
    pub offset: usize,
    pub depth: usize,
    pub max_depth: usize,
    pub error: Option<DtError>,
    pub done: bool,
}

impl<'a> NodeIterator<'a> {
    /// The blocks can be walked without overflow, the open levels stay within
    /// the limit, and an error is only recorded once the walk has ended.
    pub open spec fn inv(&self) -> bool {
        &&& addressable(self.dt_struct@)
        &&& self.dt_strings@.len() <= usize::MAX
        &&& self.depth <= self.max_depth
        &&& !self.done ==> self.error is None
    }

    /// A pre-order walk of the subtree rooted at `root`, with at most
    /// `max_depth` levels open at once.
    pub fn new(root: &DevTreeNode<'a>, max_depth: usize) -> (r: Self)
        requires
            root.wf(),
        ensures
            r.inv(),
            r.rest() == walk(
                root.dt_struct@,
                root.dt_strings@,
                root.struct_offset as int,
                0,
                max_depth as nat,
            ),
            r.dt_struct == root.dt_struct,
            r.dt_strings == root.dt_strings,
    {
        NodeIterator {
            dt_struct: root.dt_struct,
            dt_strings: root.dt_strings,
            offset: root.struct_offset,
            depth: 0,
            max_depth,
            error: None,
            done: false,
        }
    }

    /// The offsets of the nodes still to be yielded, and how the walk ends.
    pub open spec fn rest(&self) -> (Seq<int>, Option<DtError>) {
        if self.done {
            (seq![], self.error)
        } else {
            walk(
                self.dt_struct@,
                self.dt_strings@,
                self.offset as int,
                self.depth as nat,
                self.max_depth as nat,
            )
        }
    }

    /// The next node in pre-order; `None` once the walk has ended, normally or not.
    pub fn next(&mut self) -> (r: Option<DevTreeNode<'a>>)
        requires
            old(self).inv(),
        ensures
            final(self).inv(),
            final(self).dt_struct == old(self).dt_struct,
            final(self).dt_strings == old(self).dt_strings,
            old(self).rest().0.len() > 0 ==> (r matches Some(n) && n.wf() && n.dt_struct
                == old(self).dt_struct && n.dt_strings == old(self).dt_strings && n.struct_offset
                == old(self).rest().0[0] && final(self).rest() == (
                old(self).rest().0.drop_first(),
                old(self).rest().1,
            )),
            old(self).rest().0.len() == 0 ==> (r is None && final(self).done && final(self).error
                == old(self).rest().1),
    {
        if self.done {
            return None;
        }
        let s = self.dt_struct;
        let t = self.dt_strings;
        loop
            invariant
                self.inv(),
                !self.done,
                s == self.dt_struct,
                t == self.dt_strings,
                self.dt_struct == old(self).dt_struct,
                self.dt_strings == old(self).dt_strings,
                self.rest() == old(self).rest(),
            decreases s@.len() + 4 - self.offset,
        {
            let off = self.offset;
            match read_token(s, t, off) {
                Err(e) => {
                    self.done = true;
                    self.error = Some(e);
                    return None;
                },
                Ok(tk) => {
                    proof {
                        lemma_token_advances(s@, t@, off as int);
                    }
                    let next = tk.next();
                    match tk {
                        Token::Begin { .. } => {
                            if self.depth >= self.max_depth {
                                self.done = true;
                                self.error = Some(DtError::TooDeep);
                                return None;
                            }
                            let node = DevTreeNode::new_at_offset(s, t, off).unwrap();
                            self.depth = self.depth + 1;
                            self.offset = next;
                            return Some(node);
                        },
                        Token::EndNode { .. } => {
                            if self.depth <= 1 {
                                self.done = true;
                                return None;
                            }
                            self.depth = self.depth - 1;
                            self.offset = next;
                        },
                        Token::End { .. } => {
                            self.done = true;
                            self.error = Some(DtError::MalformedToken);
                            return None;
                        },
                        _ => {
                            self.offset = next;
                        },
                    }
                },
            }
        }
    }

    /// The error that ended the walk, or `None` while it runs or after it
    /// ended normally.
    pub fn error(&self) -> (r: Option<DtError>)
        ensures
            r == self.error,
    {
        self.error
    }
}

} // verus!

verus! {

/// The value offset of a `PROP` token: the place of the property in the file.
pub open spec fn prop_offset(tk: Token) -> int {
    match tk {
        Token::Prop { value_start, .. } => value_start as int,
        _ => 0,
    }
}

/// Every entry of `w` is at least `lo`, and the entries strictly increase.
pub open spec fn sorted_from(w: Seq<int>, lo: int) -> bool {
    &&& forall|i: int| 0 <= i < w.len() ==> lo <= #[trigger] w[i]
    &&& forall|i: int, j: int| 0 <= i < j < w.len() ==> w[i] < w[j]
}

proof fn lemma_sorted_cons(head: int, rest: Seq<int>, lo: int)
    requires
        lo <= head,
        sorted_from(rest, head + 1),
    ensures
        sorted_from(seq![head] + rest, lo),
{
    let w = seq![head] + rest;
    assert forall|i: int| 0 <= i < w.len() implies lo <= #[trigger] w[i] by {
        if i > 0 {
            assert(w[i] == rest[i - 1]);
        }
    }
    assert forall|i: int, j: int| 0 <= i < j < w.len() implies w[i] < w[j] by {
        assert(w[j] == rest[j - 1]);
        if i > 0 {
            assert(w[i] == rest[i - 1]);
        }
    }
}

proof fn lemma_sorted_weaken(w: Seq<int>, lo: int, lower: int)
    requires
        sorted_from(w, lo),
        lower <= lo,
    ensures
        sorted_from(w, lower),
{
}

/// The nodes a walk yields come in strictly increasing file offsets, none before `off`.
pub proof fn lemma_walk_sorted(s: Seq<u8>, t: Seq<u8>, off: int, depth: nat, max_depth: nat)
    ensures
        sorted_from(walk(s, t, off, depth, max_depth).0, off),
    decreases s.len() + 4 - off,
{
    if let Ok(tk) = token(s, t, off) {
        let next = tk.next_spec() as int;
        if advances(s, off, next) {
            match tk {
                Token::Begin { .. } => if depth < max_depth {
                    lemma_walk_sorted(s, t, next, depth + 1, max_depth);
                    lemma_sorted_weaken(walk(s, t, next, depth + 1, max_depth).0, next, off + 1);
                    lemma_sorted_cons(off, walk(s, t, next, depth + 1, max_depth).0, off);
                },
                Token::EndNode { .. } => if depth > 1 {
                    lemma_walk_sorted(s, t, next, (depth - 1) as nat, max_depth);
                },
                Token::End { .. } => {},
                _ => lemma_walk_sorted(s, t, next, depth, max_depth),
            }
        }
    }
}

/// Inside a subtree that closes, a walk that the depth limit does not cut
/// short ends without error exactly where the subtree closes, and yields the
/// `BEGIN_NODE` tokens met on the way.
proof fn lemma_walk_close(s: Seq<u8>, t: Seq<u8>, off: int, depth: nat, max_depth: nat)
    requires
        depth >= 1,
        close(s, t, off, depth) is Ok,
        walk(s, t, off, depth, max_depth).1 != Some(DtError::TooDeep),
    ensures
        walk(s, t, off, depth, max_depth).1 is None,
        walk(s, t, off, depth, max_depth).0 + begin_tokens(s, t, close(s, t, off, depth)->Ok_0)
            == begin_tokens(s, t, off),
    decreases s.len() + 4 - off,
{
    let tk = token(s, t, off)->Ok_0;
    let next = tk.next_spec() as int;
    match tk {
        Token::Begin { .. } => {
            lemma_walk_close(s, t, next, depth + 1, max_depth);
            let w = walk(s, t, next, depth + 1, max_depth).0;
            let c = close(s, t, off, depth)->Ok_0;
            assert((seq![off] + w) + begin_tokens(s, t, c) =~= seq![off] + (w + begin_tokens(
                s,
                t,
                c,
            )));
        },
        Token::EndNode { .. } => if depth > 1 {
            lemma_walk_close(s, t, next, (depth - 1) as nat, max_depth);
        } else {
            assert(seq![] + begin_tokens(s, t, next) =~= begin_tokens(s, t, next));
        },
        Token::End { .. } => {},
        _ => lemma_walk_close(s, t, next, depth, max_depth),
    }
}

/// Every open level of a walk took at least four bytes of the block, so a
/// depth limit of a quarter of the block's length is never reached.
pub proof fn lemma_walk_within_depth(s: Seq<u8>, t: Seq<u8>, off: int, depth: nat, max_depth: nat)
    requires
        addressable(s),
        t.len() <= usize::MAX,
        4 * depth <= off,
        s.len() <= 4 * max_depth,
    ensures
        walk(s, t, off, depth, max_depth).1 != Some(DtError::TooDeep),
    decreases s.len() + 4 - off,
{
    if let Ok(tk) = token(s, t, off) {
        lemma_token_advances(s, t, off);
        let next = tk.next_spec() as int;
        match tk {
            Token::Begin { name_end, .. } => {
                let n = name_end as int;
                assert((n + 1 + 3) / 4 * 4 >= n + 1) by (nonlinear_arith);
                assert((n + 1 + 3) / 4 * 4 <= n + 4) by (nonlinear_arith);
                lemma_nul_at_bounds(s, off + 4);
                assert(n == nul_at(s, off + 4));
                assert(next == align4(n + 1));
                lemma_walk_within_depth(s, t, next, depth + 1, max_depth);
            },
            Token::EndNode { .. } => if depth > 1 {
                lemma_walk_within_depth(s, t, next, (depth - 1) as nat, max_depth);
            },
            Token::End { .. } => {},
            _ => lemma_walk_within_depth(s, t, next, depth, max_depth),
        }
    }
}

/// In a well-formed structure block (the root node at offset 0 closes and
/// the `END` token follows it), a walk from the root whose depth limit is at
/// least a quarter of the block's length ends without error and yields exactly the block's
/// `BEGIN_NODE` tokens, as many as there are, each once and in file order; so
/// every node comes before the nodes nested in it, which follow it in the file.
pub proof fn lemma_walk_yields_every_node(s: Seq<u8>, t: Seq<u8>, max_depth: nat)
    requires
        addressable(s),
        t.len() <= usize::MAX,
        s.len() <= 4 * max_depth,
        token(s, t, 0) matches Ok(Token::Begin { .. }),
        close(s, t, node_body(s, t, 0), 1) matches Ok(c) && token(s, t, c) matches Ok(
            Token::End { .. },
        ),
    ensures
        walk(s, t, 0, 0, max_depth).1 is None,
        walk(s, t, 0, 0, max_depth).0 == begin_tokens(s, t, 0),
        walk(s, t, 0, 0, max_depth).0.len() == begin_tokens(s, t, 0).len(),
        sorted_from(walk(s, t, 0, 0, max_depth).0, 0),
{
    let body = node_body(s, t, 0);
    let c = close(s, t, body, 1)->Ok_0;
    lemma_walk_within_depth(s, t, 0, 0, max_depth);
    assert(advances(s, 0, body)) by {
        reveal_with_fuel(close, 1);
    }
    lemma_walk_close(s, t, body, 1, max_depth);
    let w = walk(s, t, body, 1, max_depth).0;
    assert(begin_tokens(s, t, c) =~= seq![]);
    assert(w + begin_tokens(s, t, c) =~= w);
    lemma_walk_sorted(s, t, 0, 0, max_depth);
}

/// The file offsets of a run of `PROP` tokens.
pub open spec fn prop_offsets(items: Seq<Token>) -> Seq<int> {
    items.map_values(|tk: Token| prop_offset(tk))
}

/// A node's properties come in file order: each one's value starts after the
/// previous one's.
pub proof fn lemma_prop_run_sorted(s: Seq<u8>, t: Seq<u8>, off: int)
    requires
        addressable(s),
    ensures
        sorted_from(prop_offsets(prop_run(s, t, off).0), off + 1),
    decreases s.len() + 4 - off,
{
    if let Ok(tk) = token(s, t, off) {
        let next = tk.next_spec() as int;
        if advances(s, off, next) {
            match tk {
                Token::Prop { value_start, .. } => {
                    let rest = prop_run(s, t, next).0;
                    lemma_prop_run_sorted(s, t, next);
                    assert(value_start == off + 12);
                    assert(value_start <= next);
                    lemma_sorted_weaken(prop_offsets(rest), next + 1, value_start + 1);
                    lemma_sorted_cons(value_start as int, prop_offsets(rest), off + 1);
                    assert(prop_offsets(seq![tk] + rest) =~= seq![value_start as int]
                        + prop_offsets(rest));
                },
                Token::Nop { .. } => {
                    lemma_prop_run_sorted(s, t, next);
                    lemma_sorted_weaken(prop_offsets(prop_run(s, t, next).0), next + 1, off + 1);
                },
                _ => {
                    assert(prop_offsets(seq![]) =~= seq![]);
                },
            }
        } else {
            assert(prop_offsets(seq![]) =~= seq![]);
        }
    } else {
        assert(prop_offsets(seq![]) =~= seq![]);
    }
}

/// A node's children come in file order.
pub proof fn lemma_child_run_sorted(s: Seq<u8>, t: Seq<u8>, off: int)
    ensures
        sorted_from(child_run(s, t, off).0, off),
    decreases s.len() + 4 - off,
{
    if let Ok(tk) = token(s, t, off) {
        let next = tk.next_spec() as int;
        if advances(s, off, next) {
            match tk {
                Token::Begin { .. } => if let Ok(after) = close(s, t, next, 1) {
                    if advances(s, off, after) {
                        lemma_child_run_sorted(s, t, after);
                        lemma_sorted_weaken(child_run(s, t, after).0, after, off + 1);
                        lemma_sorted_cons(off, child_run(s, t, after).0, off);
                    }
                },
                Token::Nop { .. } => {
                    lemma_child_run_sorted(s, t, next);
                },
                _ => {},
            }
        }
    }
}

proof fn lemma_prop_run_stop_after(s: Seq<u8>, t: Seq<u8>, off: int)
    ensures
        prop_run(s, t, off).1 matches Ok(stop) ==> off <= stop,
    decreases s.len() + 4 - off,
{
    if let Ok(tk) = token(s, t, off) {
        let next = tk.next_spec() as int;
        if advances(s, off, next) {
            lemma_prop_run_stop_after(s, t, next);
        }
    }
}

/// Iterating a node's properties, or its children, yields them in file
/// order; and since what a fresh cursor yields depends on the node alone,
/// repeated traversals of the same node agree.
pub proof fn lemma_iteration_order(n: DevTreeNode)
    requires
        n.wf(),
    ensures
        sorted_from(prop_offsets(n.props().0), n.body() + 1),
        sorted_from(n.kids().0, n.body()),
{
    lemma_prop_run_sorted(n.dt_struct@, n.dt_strings@, n.body());
    if let Ok(stop) = n.props().1 {
        lemma_child_run_sorted(n.dt_struct@, n.dt_strings@, stop);
        lemma_prop_run_stop_after(n.dt_struct@, n.dt_strings@, n.body());
        lemma_sorted_weaken(n.kids().0, stop, n.body());
    }
}

} // verus!
