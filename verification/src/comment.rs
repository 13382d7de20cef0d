//! Comment attachment: associate each comment with the nearest following
//! symbol whose type opts into comments.

use vstd::prelude::*;
use crate::range::ByteRange;
use crate::schema::Schema;
use crate::symbol::Ast;
use crate::builder::MainBuilder;

verus! {

/// Is `j` a live symbol that can carry a comment?
pub open spec fn comment_capable(schema: Schema, ast: Ast, j: int) -> bool {
    ast.is_live(j) && schema.types@[ast.n(j).type_id as int].comment is Some
}

/// `j` is the nearest comment-capable symbol following comment `c`: capable,
/// starting at or past the comment's end, with the least start byte (ties to
/// the lowest slot).
pub open spec fn is_nearest_following(schema: Schema, ast: Ast, c: ByteRange, j: int) -> bool {
    &&& comment_capable(schema, ast, j)
    &&& c.end <= ast.n(j).range.start
    &&& forall|j2: int|
        comment_capable(schema, ast, j2) && c.end <= (#[trigger] ast.n(j2)).range.start
            ==> (ast.n(j).range.start < ast.n(j2).range.start || (ast.n(j).range.start == ast.n(
            j2,
        ).range.start && j <= j2))
}

/// Nearness reads nothing a comment write changes.
proof fn lemma_nearest_stable(a: Ast, b: Ast, schema: Schema, c: ByteRange, j: int)
    requires
        a.spec_len() == b.spec_len(),
        forall|i: int| 0 <= i < a.spec_len() ==> (#[trigger] b.n(i)).type_id == a.n(i).type_id
            && b.n(i).range == a.n(i).range && b.n(i).live == a.n(i).live,
    ensures
        is_nearest_following(schema, a, c, j) == is_nearest_following(schema, b, c, j),
{
    if is_nearest_following(schema, a, c, j) {
        assert(0 <= j < a.spec_len());
        assert forall|j2: int|
            comment_capable(schema, b, j2) && c.end <= (#[trigger] b.n(j2)).range.start implies (
        b.n(j).range.start < b.n(j2).range.start || (b.n(j).range.start == b.n(j2).range.start
            && j <= j2)) by {
            assert(0 <= j2 < a.spec_len());
            assert(a.n(j2).range == b.n(j2).range);
            assert(comment_capable(schema, a, j2));
        }
        assert(is_nearest_following(schema, b, c, j));
    }
    if is_nearest_following(schema, b, c, j) {
        assert(0 <= j < a.spec_len());
        assert forall|j2: int|
            comment_capable(schema, a, j2) && c.end <= (#[trigger] a.n(j2)).range.start implies (
        a.n(j).range.start < a.n(j2).range.start || (a.n(j).range.start == a.n(j2).range.start
            && j <= j2)) by {
            assert(0 <= j2 < a.spec_len());
            assert(comment_capable(schema, b, j2));
        }
        assert(is_nearest_following(schema, a, c, j));
    }
}

/// Changing only `comment` fields preserves well-formedness.
proof fn lemma_comment_frame(pre: Ast, fin: Ast, schema: Schema)
    requires
        pre.wf(schema),
        fin.spec_len() == pre.spec_len(),
        fin.root == pre.root,
        forall|j: int| 0 <= j < pre.spec_len() ==> (#[trigger] fin.n(j)).type_id == pre.n(
            j,
        ).type_id && fin.n(j).range == pre.n(j).range && fin.n(j).parent == pre.n(j).parent
            && fin.n(j).fields == pre.n(j).fields && fin.n(j).referrers == pre.n(j).referrers
            && fin.n(j).target == pre.n(j).target && fin.n(j).live == pre.n(j).live,
    ensures
        fin.wf(schema),
{
    assert forall|j: int| 0 <= j < fin.spec_len() implies #[trigger] crate::builder::node_ok_full(
        fin,
        schema,
        j,
    ) by {
        assert(pre.node_graph_ok(j));
        assert(pre.node_schema_ok(schema, j));
        assert(fin.n(j).fields == pre.n(j).fields);
        assert forall|f: int, k: int|
            0 <= f < fin.n(j).fields@.len() && 0 <= k < fin.n(j).fields@[f]@.len() implies {
            let c = #[trigger] fin.n(j).fields@[f]@[k];
            &&& j < c < fin.spec_len()
            &&& fin.n(c as int).parent == Some(j as usize)
            &&& fin.n(c as int).live == fin.n(j).live
            &&& fin.n(c as int).range.spec_inside(fin.n(j).range)
            &&& schema.types@[fin.n(j).type_id as int].fields@[f].types@.contains(
                fin.n(c as int).type_id,
            )
        } by {
            let c = fin.n(j).fields@[f]@[k];
            assert(pre.n(j).fields@[f]@[k] == c);
        }
    }
    assert forall|j: int| 0 <= j < fin.spec_len() implies #[trigger] fin.node_graph_ok(j) by {
        assert(crate::builder::node_ok_full(fin, schema, j));
    }
    assert forall|j: int| 0 <= j < fin.spec_len() implies #[trigger] fin.node_schema_ok(
        schema,
        j,
    ) by {
        assert(crate::builder::node_ok_full(fin, schema, j));
    }
    assert forall|j: int| 0 <= j < fin.spec_len() && fin.n(j).live implies match fin.n(
        j,
    ).parent {
        Some(p) => fin.n(p as int).live && fin.child_in_field(p as int, j),
        None => fin.root == Some(j as usize),
    } by {
        assert(pre.n(j).live);
        assert(pre.node_graph_ok(j));
        match pre.n(j).parent {
            Some(p) => {
                assert(pre.child_in_field(p as int, j));
                let (f, k) = choose|f: int, k: int|
                    0 <= f < pre.n(p as int).fields@.len() && 0 <= k < pre.n(
                        p as int,
                    ).fields@[f]@.len() && #[trigger] pre.n(p as int).fields@[f]@[k] == j;
                assert(fin.n(p as int).fields@[f]@[k] == j);
                assert(fin.child_in_field(p as int, j));
            },
            None => {},
        }
    }
    match fin.root {
        Some(r) => {
            assert(fin.n(r as int).live && fin.n(r as int).parent is None) by {
                assert(pre.n(r as int).live && pre.n(r as int).parent is None);
            }
        },
        None => {
            assert forall|i: int| 0 <= i < fin.spec_len() implies !(#[trigger] fin.n(
                i,
            ).live) by {
                assert(!pre.n(i).live);
            }
        },
    }
    assert forall|j: int| 0 <= j < fin.spec_len() && fin.n(j).live implies match fin.n(
        j,
    ).target {
        Some(t) => t < fin.spec_len() && (fin.n(t as int).live ==> fin.n(
            t as int,
        ).referrers@.contains(j as usize)),
        None => true,
    } by {
        assert(pre.n(j).live);
        match pre.n(j).target {
            Some(t) => {
                if fin.n(t as int).live {
                    assert(pre.n(t as int).referrers@.contains(j as usize));
                    assert(fin.n(t as int).referrers@ == pre.n(t as int).referrers@);
                }
            },
            None => {},
        }
    }
}

impl MainBuilder {
    /// Attach each comment to the nearest following symbol (smallest start
    /// byte at or past the comment's end) whose type opts into comments.
    /// Only `comment` fields change.
    pub fn add_comments(&mut self, schema: &Schema, comments: &Vec<ByteRange>)
        requires
            schema.wf(),
            old(self).wf(*schema),
        ensures
            final(self).wf(*schema),
            final(self).ast.spec_len() == old(self).ast.spec_len(),
            final(self).ast.root == old(self).ast.root,
            final(self).diagnostics == old(self).diagnostics,
            final(self).unsolved_checks == old(self).unsolved_checks,
            final(self).unsolved_references == old(self).unsolved_references,
            forall|j: int| 0 <= j < old(self).ast.spec_len() ==> #[trigger] final(self).ast.n(j)
                == (crate::symbol::Symbol {
                comment: final(self).ast.n(j).comment,
                ..old(self).ast.n(j)
            }),
            // a fresh attachment names one of the given comments, placed
            // before the symbol, on a comment-capable symbol
            forall|j: int|
                0 <= j < old(self).ast.spec_len() && #[trigger] final(self).ast.n(j).comment
                    != old(self).ast.n(j).comment ==> comment_capable(
                    *schema,
                    final(self).ast,
                    j,
                ) && (final(self).ast.n(j).comment matches Some(c) && comments@.contains(c)
                    && c.end <= final(self).ast.n(j).range.start),
            // every comment with a following capable symbol got attached:
            // the nearest such symbol carries one afterwards
            forall|cx: int, j: int|
                0 <= cx < comments@.len() && #[trigger] is_nearest_following(
                    *schema,
                    final(self).ast,
                    comments@[cx],
                    j,
                ) ==> final(self).ast.n(j).comment is Some,
    {
        let nc = comments.len();
        let mut ci: usize = 0;
        while ci < nc
            invariant
                schema.wf(),
                nc == comments@.len(),
                ci <= nc,
                self.wf(*schema),
                self.ast.spec_len() == old(self).ast.spec_len(),
                self.ast.root == old(self).ast.root,
                self.diagnostics == old(self).diagnostics,
                self.unsolved_checks == old(self).unsolved_checks,
                self.unsolved_references == old(self).unsolved_references,
                forall|j: int| 0 <= j < old(self).ast.spec_len() ==> #[trigger] self.ast.n(j)
                    == (crate::symbol::Symbol {
                    comment: self.ast.n(j).comment,
                    ..old(self).ast.n(j)
                }),
                forall|j: int|
                    0 <= j < old(self).ast.spec_len() && #[trigger] self.ast.n(j).comment
                        != old(self).ast.n(j).comment ==> comment_capable(*schema, self.ast, j)
                        && (self.ast.n(j).comment matches Some(c) && comments@.contains(c)
                        && c.end <= self.ast.n(j).range.start),
                forall|cx: int, j: int|
                    0 <= cx < ci && #[trigger] is_nearest_following(
                        *schema,
                        self.ast,
                        comments@[cx],
                        j,
                    ) ==> self.ast.n(j).comment is Some,
            decreases nc - ci,
        {
            let c = comments[ci];
            let n = self.ast.len();
            let mut best: Option<usize> = None;
            let mut j: usize = 0;
            while j < n
                invariant
                    schema.wf(),
                    self.wf(*schema),
                    n == self.ast.spec_len(),
                    j <= n,
                    match best {
                        Some(b) => b < j && b < n && comment_capable(*schema, self.ast, b as int)
                            && c.end <= self.ast.n(b as int).range.start && (forall|j2: int|
                            0 <= j2 < j && comment_capable(*schema, self.ast, j2) && c.end <= (
                            #[trigger] self.ast.n(j2)).range.start ==> (self.ast.n(
                                b as int,
                            ).range.start < self.ast.n(j2).range.start || (self.ast.n(
                                b as int,
                            ).range.start == self.ast.n(j2).range.start && b <= j2))),
                        None => forall|j2: int|
                            0 <= j2 < j ==> !(comment_capable(*schema, self.ast, j2) && c.end
                                <= (#[trigger] self.ast.n(j2)).range.start),
                    },
                decreases n - j,
            {
                proof {
                    assert(self.ast.node_schema_ok(*schema, j as int));
                }
                if self.ast.nodes[j].live && matches!(
                    schema.types[self.ast.nodes[j].type_id].comment,
                    Some(_)
                ) && self.ast.nodes[j].range.start >= c.end {
                    let take = match best {
                        Some(b) => self.ast.nodes[j].range.start
                            < self.ast.nodes[b].range.start,
                        None => true,
                    };
                    if take {
                        best = Some(j);
                        proof {
                            assert(comment_capable(*schema, self.ast, j as int));
                        }
                    }
                }
                j += 1;
            }
            let ghost ast_ci = self.ast;
            match best {
                Some(b) => {
                    let ghost pre = self.ast;
                    self.ast.nodes[b].comment = Some(c);
                    proof {
                        assert forall|cx: int, j: int|
                            0 <= cx < ci + 1 && #[trigger] is_nearest_following(
                                *schema,
                                self.ast,
                                comments@[cx],
                                j,
                            ) implies self.ast.n(j).comment is Some by {
                            lemma_nearest_stable(pre, self.ast, *schema, comments@[cx], j);
                            if cx < ci {
                                if j != b {
                                    assert(self.ast.n(j).comment == pre.n(j).comment);
                                }
                            } else {
                                // the scan found the nearest symbol for this
                                // comment: j can only be it
                                assert(is_nearest_following(*schema, pre, comments@[cx], j));
                                assert(comment_capable(*schema, pre, b as int));
                                if j != b {
                                    assert(self.ast.n(j).comment == pre.n(j).comment);
                                    assert(pre.n(b as int).range.start < pre.n(
                                        j,
                                    ).range.start || (pre.n(b as int).range.start == pre.n(
                                        j,
                                    ).range.start && b <= j));
                                    assert(pre.n(j).range.start < pre.n(b as int).range.start
                                        || (pre.n(j).range.start == pre.n(b as int).range.start
                                        && j <= b));
                                    assert(false);
                                }
                            }
                        }
                        assert forall|jj: int| 0 <= jj < pre.spec_len() implies (
                        #[trigger] self.ast.n(jj)).type_id == pre.n(jj).type_id && self.ast.n(
                            jj,
                        ).range == pre.n(jj).range && self.ast.n(jj).parent == pre.n(jj).parent
                            && self.ast.n(jj).fields == pre.n(jj).fields && self.ast.n(
                            jj,
                        ).referrers == pre.n(jj).referrers && self.ast.n(jj).target == pre.n(
                            jj,
                        ).target && self.ast.n(jj).live == pre.n(jj).live by {
                            if jj != b {
                                assert(self.ast.n(jj) == pre.n(jj));
                            }
                        }
                        lemma_comment_frame(pre, self.ast, *schema);
                        assert(comments@[ci as int] == c);
                        assert(comments@.contains(c));
                        assert(comment_capable(*schema, self.ast, b as int)) by {
                            assert(self.ast.n(b as int).live == pre.n(b as int).live);
                            assert(self.ast.n(b as int).type_id == pre.n(b as int).type_id);
                        }
                        assert forall|q2: int| 0 <= q2 < self.unsolved_checks@.len() implies
                            #[trigger] self.unsolved_checks@[q2] < self.ast.spec_len()
                            && schema.types@[self.ast.n(
                            self.unsolved_checks@[q2] as int,
                        ).type_id as int].is_check by {}
                        assert forall|q2: int| 0 <= q2 < self.unsolved_references@.len() implies
                            #[trigger] self.unsolved_references@[q2] < self.ast.spec_len()
                            && schema.types@[self.ast.n(
                            self.unsolved_references@[q2] as int,
                        ).type_id as int].is_reference by {}
                    }
                },
                None => {
                    proof {
                        assert forall|cx: int, j: int|
                            0 <= cx < ci + 1 && #[trigger] is_nearest_following(
                                *schema,
                                self.ast,
                                comments@[cx],
                                j,
                            ) implies self.ast.n(j).comment is Some by {
                            if cx == ci {
                                assert(comment_capable(*schema, self.ast, j) && c.end
                                    <= self.ast.n(j).range.start);
                                assert(false);
                            }
                        }
                    }
                },
            }
            ci += 1;
        }
    }
}

} // verus!
