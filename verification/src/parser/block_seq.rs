//! Block sequences.
use vstd::prelude::*;
use super::grammar::{block_seq, finish_list, seq_rest, node};
use super::layout::{bounds, lemma_col, moves, Fail};
use super::{gave, went, Parser};
use crate::edit::sink::{grew, inside, lemma_inside_grew, waits};
use crate::error::Error;
use crate::text::{lemma_bd_ascii, lemma_run, Class, DASH};
use crate::value::{lemma_list_val, vals, BorrowedValue, Val};

verus! {

broadcast use {moves, bounds};

impl<'a> Parser<'a> {
    /// Parse a block-style sequence at the given indent
    ///
    /// Input:
    /// ```yaml
    /// - a
    /// - b
    /// ```
    ///
    /// Output: `BorrowedValue::Sequence([String("a"), String("b")])`
    ///
    /// Stops at EOF or a line whose indent doesn't match `indent` (or whose
    /// first non-blank char isn't a sequence dash).
    pub fn parse_block_seq(&mut self, indent: usize) -> (r: Result<BorrowedValue<'a>, Error>)
        requires
            old(self).settled(),
            indent < usize::MAX,
        ensures
            went(*old(self), *final(self)),
            gave(r, *final(self), block_seq(old(self).source(), old(self).st(), indent as int)),
            r is Ok ==> grew(old(self).st().t, final(self).st().t, old(self).st().p),
        decreases old(self).source().len() - old(self).st().p, 5int,
    {
        proof {
            reveal(block_seq);
            reveal(seq_rest);
        }
        let ghost s = self.source();
        let ghost st0 = self.st();
        let ghost n = indent as int;
        self.note_open(false);
        let ghost st1 = self.st();
        let mut items: Vec<BorrowedValue<'a>> = Vec::new();
        assert(vals(items@) =~= Seq::<Val>::empty());
        loop
            invariant_except_break
                seq_rest(s, st1, n, Seq::empty()) == seq_rest(s, self.st(), n, vals(items@)),
            invariant
                went(*old(self), *self),
                s == old(self).source(),
                st0 == old(self).st(),
                n == indent,
                indent < usize::MAX,
                inside(st0.t, self.st().t, st0.p),
                !waits(self.st().t),
                block_seq(s, st0, n) == finish_list(s, seq_rest(s, st1, n, Seq::empty())),
            ensures
                seq_rest(s, st1, n, Seq::empty()) == Ok::<_, Fail>((vals(items@), self.st())),
            decreases s.len() - self.st().p,
        {
            proof {
                reveal(seq_rest);
                reveal(node);
            }
            self.skip_blank_and_comment_lines();
            if self.at_eof() {
                break;
            }
            let cur: usize = match self.current_indent() {
                Ok(k) => k,
                Err(e) => {
                    return Err(e);
                },
            };
            proof {
                lemma_run(s, self.st().p, Class::Spaces);
                lemma_col(s, self.st().p, self.st().p + cur);
            }
            // The first dash may stand where the cursor is, every other one
            // stands at the indentation of the sequence.
            let here = items.len() == 0 && cur == 0;
            if !self.is_block_indicator_at(self.pos + cur, DASH) || !(here || (self.col0 <= indent && cur == indent
                - self.col0)) {
                break;
            }
            self.jump(self.pos + cur);
            proof {
                lemma_bd_ascii(s, self.st().p);
            }
            self.jump(self.pos + 1);
            self.skip_spaces();
            let ghost sta = self.st();
            let item = match self.parse_node(indent + 1) {
                Ok(v) => v,
                Err(e) => {
                    return Err(e);
                },
            };
            proof {
                lemma_inside_grew(st0.t, sta.t, self.st().t, st0.p, sta.p);
            }
            let ghost before = items@;
            items.push(item);
            assert(vals(items@) =~= vals(before).push(item.val()));
        }
        self.note_close(Ghost(st0.t), Ghost(st0.p));
        proof {
            lemma_list_val(items);
        }
        Ok(BorrowedValue::Sequence(items))
    }
}

} // verus!
