//! Recording spans while parsing.
use vstd::prelude::*;
use vstd::utf8::*;
use std::borrow::Cow;
use super::{went, Parser};
use crate::edit::sink::{
    grew, inside, lemma_kind_open, lemma_close, lemma_dissolve, lemma_empty, lemma_key, lemma_open, lemma_promote,
    lemma_set_anchor, lemma_set_tag, lemma_sound_on, sound, sound_extent, sound_frame, text_view, waits, width, Span,
    Tree,
};
use crate::edit::{KindView, NodeKind};
use crate::text::bd;

verus! {

impl<'a> Parser<'a> {
    /// What the recorded spans say of the innermost open node.
    proof fn lemma_top(&self)
        requires
            self.ready(),
        ensures
            self.tree@.stack.len() > 0 ==> crate::edit::sink::sound_items(
                self.tree@.stack.last().children,
                self.tree@.nodes.len() as int,
            ),
            self.tree@.last is Some ==> 0 <= self.tree@.last->0 < self.tree@.nodes.len(),
    {
        reveal(sound);
        if self.tree@.stack.len() > 0 {
            let f = self.tree@.stack[self.tree@.stack.len() - 1];
            assert(sound_frame(f, self.tree@.nodes.len() as int, self.source(), self.pos as int));
        }
    }

    /// A node begins at the cursor.
    pub(crate) fn note_open(&mut self, delimited: bool)
        requires
            old(self).settled(),
        ensures
            went(*old(self), *final(self)),
            final(self).st() == old(self).st().with(old(self).st().t.open(old(self).st().p, delimited)),
            inside(old(self).st().t, final(self).st().t, old(self).st().p),
            !waits(final(self).st().t),
            width(final(self).st().t) == 0,
    {
        proof {
            lemma_open(self.tree@, self.source(), self.pos as int, delimited);
        }
        match &mut self.sink {
            Some(k) => k.open(self.pos, delimited),
            None => {},
        }
        self.tree = Ghost(self.tree@.open(self.pos as int, delimited));
    }

    /// The innermost open node, which began at `start`, ends before the cursor.
    pub(crate) fn note_close(&mut self, Ghost(t0): Ghost<Tree>, Ghost(start): Ghost<int>)
        requires
            old(self).settled(),
            inside(t0, old(self).st().t, start),
        ensures
            went(*old(self), *final(self)),
            final(self).st() == old(self).st().with(
                old(self).st().t.close(old(self).st().p, old(self).source()),
            ),
            grew(t0, final(self).st().t, start),
    {
        proof {
            lemma_close(t0, self.tree@, self.source(), self.pos as int, start);
        }
        match &mut self.sink {
            Some(k) => k.close(self.pos, self.src),
            None => {},
        }
        self.tree = Ghost(self.tree@.close(self.pos as int, self.source()));
    }

    /// A node without any bytes stands at `at`.
    pub(crate) fn note_empty(&mut self, at: usize)
        requires
            old(self).settled(),
            at <= old(self).st().p,
            bd(old(self).source(), at as int),
            sound(old(self).st().t, old(self).source(), at as int),
        ensures
            went(*old(self), *final(self)),
            final(self).st() == old(self).st().with(old(self).st().t.empty(at as int)),
            grew(old(self).st().t, final(self).st().t, at as int),
    {
        proof {
            lemma_empty(self.tree@, self.source(), at as int);
            lemma_sound_on(self.tree@.empty(at as int), self.source(), at as int, self.pos as int);
        }
        match &mut self.sink {
            Some(k) => k.empty(at),
            None => {},
        }
        self.tree = Ghost(self.tree@.empty(at as int));
    }

    /// A key of the innermost open node, whose value comes next.
    pub(crate) fn note_key(
        &mut self,
        span: Span,
        text: Cow<'a, str>,
        Ghost(t0): Ghost<Tree>,
        Ghost(start): Ghost<int>,
    )
        requires
            old(self).settled(),
            inside(t0, old(self).st().t, start),
            sound_extent(span.v(), old(self).source(), old(self).st().p),
        ensures
            went(*old(self), *final(self)),
            final(self).st() == old(self).st().with(
                old(self).st().t.key(span.v(), Some(encode_utf8(text@))),
            ),
            inside(t0, final(self).st().t, start),
            waits(final(self).st().t),
            width(final(self).st().t) == width(old(self).st().t),
    {
        let ghost tv = Some(encode_utf8(text@));
        proof {
            lemma_key(t0, self.tree@, self.source(), self.pos as int, start, span.v(), tv);
        }
        match &mut self.sink {
            Some(k) => k.key(span, Some(text)),
            None => {},
        }
        self.tree = Ghost(self.tree@.key(span.v(), tv));
    }

    /// The last item of the innermost open node turns out to be a key.
    pub(crate) fn note_promote(
        &mut self,
        text: Option<Cow<'a, str>>,
        Ghost(t0): Ghost<Tree>,
        Ghost(start): Ghost<int>,
    )
        requires
            old(self).settled(),
            inside(t0, old(self).st().t, start),
            width(old(self).st().t) > 0,
        ensures
            went(*old(self), *final(self)),
            final(self).st() == old(self).st().with(old(self).st().t.promote(text_view(text))),
            inside(t0, final(self).st().t, start),
            waits(final(self).st().t),
            width(final(self).st().t) == width(old(self).st().t) - 1,
    {
        let ghost tv = text_view(text);
        proof {
            lemma_promote(t0, self.tree@, self.source(), self.pos as int, start, tv);
            self.lemma_top();
        }
        match &mut self.sink {
            Some(k) => k.promote_last_child_to_key(text),
            None => {},
        }
        self.tree = Ghost(self.tree@.promote(tv));
    }

    /// The innermost open node turns out to be its only item.
    pub(crate) fn note_dissolve(&mut self, Ghost(t0): Ghost<Tree>, Ghost(t1): Ghost<Tree>, Ghost(start): Ghost<int>)
        requires
            old(self).settled(),
            sound(t0, old(self).source(), start),
            start <= old(self).st().p,
            inside(t0, t1, start),
            !waits(t1),
            grew(t1, old(self).st().t, start),
        ensures
            went(*old(self), *final(self)),
            final(self).st() == old(self).st().with(old(self).st().t.dissolve()),
            grew(t0, final(self).st().t, start),
    {
        proof {
            lemma_dissolve(t0, t1, self.tree@, self.source(), self.pos as int, start);
            self.lemma_top();
        }
        match &mut self.sink {
            Some(k) => k.dissolve(),
            None => {},
        }
        self.tree = Ghost(self.tree@.dissolve());
    }

    /// The node finished last carries the anchor `name`.
    pub(crate) fn note_anchor(&mut self, name: &'a str, token: Span, Ghost(t0): Ghost<Tree>, Ghost(from): Ghost<int>)
        requires
            old(self).settled(),
            grew(t0, old(self).st().t, from),
        ensures
            went(*old(self), *final(self)),
            final(self).st() == old(self).st().with(
                old(self).st().t.set_anchor(encode_utf8(name@), token.v()),
            ),
            grew(t0, final(self).st().t, from),
    {
        proof {
            lemma_set_anchor(
                t0,
                self.tree@,
                self.source(),
                self.pos as int,
                from,
                encode_utf8(name@),
                token.v(),
            );
            self.lemma_top();
        }
        match &mut self.sink {
            Some(k) => k.set_anchor(name, token),
            None => {},
        }
        self.tree = Ghost(self.tree@.set_anchor(encode_utf8(name@), token.v()));
    }

    /// The node finished last carries the tag `tag`.
    pub(crate) fn note_tag(&mut self, tag: &'a str, Ghost(t0): Ghost<Tree>, Ghost(from): Ghost<int>)
        requires
            old(self).settled(),
            grew(t0, old(self).st().t, from),
        ensures
            went(*old(self), *final(self)),
            final(self).st() == old(self).st().with(old(self).st().t.set_tag(encode_utf8(tag@))),
            grew(t0, final(self).st().t, from),
    {
        proof {
            lemma_set_tag(t0, self.tree@, self.source(), self.pos as int, from, encode_utf8(tag@));
            self.lemma_top();
        }
        match &mut self.sink {
            Some(k) => k.set_tag(tag),
            None => {},
        }
        self.tree = Ghost(self.tree@.set_tag(encode_utf8(tag@)));
    }

    /// The innermost open node is the alias `name`.
    pub(crate) fn note_alias(&mut self, name: &'a str, Ghost(t0): Ghost<Tree>, Ghost(start): Ghost<int>)
        requires
            old(self).settled(),
            inside(t0, old(self).st().t, start),
        ensures
            went(*old(self), *final(self)),
            final(self).st() == old(self).st().with(old(self).st().t.kind_open(KindView::AliasRef(encode_utf8(name@)))),
            inside(t0, final(self).st().t, start),
    {
        proof {
            lemma_kind_open(
                t0,
                self.tree@,
                self.source(),
                self.pos as int,
                start,
                KindView::AliasRef(encode_utf8(name@)),
            );
        }
        match &mut self.sink {
            Some(k) => k.kind_open(NodeKind::AliasRef(name)),
            None => {},
        }
        self.tree = Ghost(self.tree@.kind_open(KindView::AliasRef(encode_utf8(name@))));
    }
}

} // verus!
