//! Box-drawing state for printing a tree one row at a time: which sign
//! each indentation column shows, given which branches are still open.

use vstd::prelude::*;

verus! {

/// One indentation column's sign.
#[derive(Debug, PartialEq, Eq, Structural, Clone, Copy)]
pub enum TreeSign {
    /// leftmost under its parent, *not* the last sibling
    Edge,
    /// *not* the leftmost, and *not* the last sibling
    Line,
    /// leftmost, the last sibling
    Corner,
    /// *not* the leftmost, the last sibling
    Blank,
}

/// The drawing a sign shows.
pub open spec fn ascii_of(s: TreeSign) -> Seq<char> {
    match s {
        TreeSign::Edge => "├──"@,
        TreeSign::Line => "│  "@,
        TreeSign::Corner => "└──"@,
        TreeSign::Blank => "   "@,
    }
}

impl TreeSign {
    /// The drawing for this sign.
    pub fn ascii(&self) -> (r: &'static str)
        ensures
            r@ == ascii_of(*self),
    {
        match *self {
            TreeSign::Edge => "├──",
            TreeSign::Line => "│  ",
            TreeSign::Corner => "└──",
            TreeSign::Blank => "   ",
        }
    }
}

/// How deep a row is indented.
#[derive(Debug, Copy, Clone, PartialEq, Eq, Structural)]
pub struct TreeDepth(pub usize);

impl TreeDepth {
    /// The root's depth.
    pub fn root() -> (r: TreeDepth)
        ensures
            r.0 == 0,
    {
        TreeDepth(0)
    }

    /// One level deeper.
    pub fn deeper(&self) -> (r: TreeDepth)
        requires
            self.0 < usize::MAX,
        ensures
            r.0 == self.0 + 1,
    {
        TreeDepth(self.0 + 1)
    }
}

/// One row's position: its depth and whether it is the last sibling.
#[derive(Debug, Copy, Clone, PartialEq, Eq, Structural)]
pub struct TreeParam {
    pub last: bool,
    pub depth: TreeDepth,
}

impl TreeParam {
    pub fn new(depth: TreeDepth, last: bool) -> (r: TreeParam)
        ensures
            r.depth == depth,
            r.last == last,
    {
        TreeParam { depth, last }
    }

    /// Whether this row is the root row.
    pub fn is_root(&self) -> (r: bool)
        ensures
            r == (self.depth.0 == 0),
    {
        self.depth.0 == 0
    }
}

/// The signs the columns of one row show, given the signs of the
/// previous row: the previous row's own column turns into a
/// continuation (line or blank), the columns are cut or padded to the
/// new depth, and the new row's column shows its edge or corner.
pub open spec fn next_row(
    nodes: Seq<TreeSign>,
    last_params: Option<TreeParam>,
    param: TreeParam,
) -> Seq<TreeSign> {
    let marked = match last_params {
        Some(lp) => nodes.update(
            lp.depth.0 as int,
            if lp.last {
                TreeSign::Blank
            } else {
                TreeSign::Line
            },
        ),
        None => nodes,
    };
    let resized = Seq::new(
        (param.depth.0 + 1) as nat,
        |i: int|
            if i < marked.len() {
                marked[i]
            } else {
                TreeSign::Edge
            },
    );
    resized.update(
        param.depth.0 as int,
        if param.last {
            TreeSign::Corner
        } else {
            TreeSign::Edge
        },
    )
}

/// The running row state while a tree is printed.
#[derive(Debug)]
pub struct TreeStream {
    pub nodes: Vec<TreeSign>,
    pub last_params: Option<TreeParam>,
}

impl TreeStream {
    /// The remembered previous row, when there is one, lies within the
    /// columns.
    pub open spec fn wf(&self) -> bool {
        match self.last_params {
            Some(lp) => lp.depth.0 < self.nodes@.len(),
            None => true,
        }
    }

    /// An empty stream: no columns, no previous row.
    pub fn new() -> (r: TreeStream)
        ensures
            r.wf(),
            r.nodes@.len() == 0,
            r.last_params is None,
    {
        TreeStream { nodes: Vec::new(), last_params: None }
    }

    /// Steps to the next row and returns its signs past the root column.
    pub fn new_row(&mut self, param: TreeParam) -> (r: Vec<TreeSign>)
        requires
            old(self).wf(),
            param.depth.0 < usize::MAX,
        ensures
            final(self).wf(),
            final(self).nodes@ == next_row(old(self).nodes@, old(self).last_params, param),
            final(self).last_params == Some(param),
            r@ == final(self).nodes@.skip(1),
    {
        match self.last_params {
            Some(lp) => {
                self.nodes.set(
                    lp.depth.0,
                    if lp.last {
                        TreeSign::Blank
                    } else {
                        TreeSign::Line
                    },
                );
            },
            None => {},
        }
        let ghost marked = self.nodes@;
        let target = param.depth.0 + 1;
        if self.nodes.len() > target {
            self.nodes.truncate(target);
            proof {
                assert(self.nodes@ =~= Seq::new(
                    target as nat,
                    |i: int|
                        if i < marked.len() {
                            marked[i]
                        } else {
                            TreeSign::Edge
                        },
                ));
            }
        } else {
            while self.nodes.len() < target
                invariant
                    self.nodes@.len() <= target,
                    marked.len() <= self.nodes@.len(),
                    forall|i: int| 0 <= i < marked.len() ==> self.nodes@[i] == marked[i],
                    forall|i: int|
                        marked.len() <= i < self.nodes@.len() ==> self.nodes@[i] == TreeSign::Edge,
                decreases target - self.nodes@.len(),
            {
                self.nodes.push(TreeSign::Edge);
            }
            proof {
                assert(self.nodes@ =~= Seq::new(
                    target as nat,
                    |i: int|
                        if i < marked.len() {
                            marked[i]
                        } else {
                            TreeSign::Edge
                        },
                ));
            }
        }
        self.nodes.set(
            param.depth.0,
            if param.last {
                TreeSign::Corner
            } else {
                TreeSign::Edge
            },
        );
        self.last_params = Some(param);
        let mut r: Vec<TreeSign> = Vec::new();
        let mut m: usize = 1;
        proof {
            assert(r@ =~= self.nodes@.subrange(1, 1));
        }
        while m < self.nodes.len()
            invariant
                1 <= m <= self.nodes@.len(),
                r@ == self.nodes@.subrange(1, m as int),
            decreases self.nodes@.len() - m,
        {
            r.push(self.nodes[m]);
            proof {
                assert(r@ =~= self.nodes@.subrange(1, m as int + 1));
            }
            m = m + 1;
        }
        proof {
            assert(r@ =~= self.nodes@.skip(1));
        }
        r
    }
}

} // verus!
