//! Text, whose update is held back where nothing has changed.

use crate::surface::{Handle, MutationModel, Surface};
use crate::view::{Html, Mountable};
use vstd::prelude::*;

verus! {

/// A piece of text to show.
#[derive(Debug, PartialEq, Eq)]
pub struct Text {
    pub content: String,
}

/// Built text: its live node and the content that the node holds.
#[derive(Debug, PartialEq, Eq)]
pub struct TextProduct {
    handle: Handle,
    memo: String,
}

impl TextProduct {
    /// The content that the live node holds.
    pub closed spec fn content(&self) -> Seq<char> {
        self.memo@
    }

    /// The content that the live node holds.
    pub fn memo(&self) -> (memo: &String)
        ensures
            memo@ == self.content(),
    {
        &self.memo
    }
}

impl Mountable for TextProduct {
    closed spec fn handle(&self) -> Handle {
        self.handle
    }

    open spec fn owns(&self, handle: Handle) -> bool {
        handle == self.handle()
    }

    open spec fn sound(&self, log: Seq<MutationModel>) -> bool {
        self.handle().id < log.len()
    }

    proof fn lemma_sound(&self, log: Seq<MutationModel>) {
    }

    proof fn lemma_spared(&self, log: Seq<MutationModel>, more: Seq<MutationModel>) {
    }

    fn js(&self) -> (handle: Handle) {
        self.handle
    }
}

impl Html for Text {
    type Product = TextProduct;

    open spec fn shown_by(&self, product: &TextProduct) -> bool {
        product.content() == self.content@
    }

    open spec fn build_log(&self, at: nat) -> Seq<MutationModel> {
        seq![MutationModel::CreateText { handle: Handle::at(at), content: self.content@ }]
    }

    open spec fn update_log(&self, product: &TextProduct, at: nat) -> Seq<MutationModel> {
        if product.content() == self.content@ {
            Seq::empty()
        } else {
            seq![MutationModel::SetText { handle: product.handle(), content: self.content@ }]
        }
    }

    proof fn lemma_build_fresh(&self, at: nat) {
    }

    proof fn lemma_update_local(&self, product: &TextProduct, log: Seq<MutationModel>) {
    }

    fn build(self, surface: &mut Surface) -> (product: TextProduct) {
        proof {
            surface.lemma_countable();
        }
        let handle = surface.create_text(self.content.clone());
        proof {
            surface.lemma_countable();
        }
        assert(surface@ =~= old(surface)@ + self.build_log(old(surface)@.len()));
        TextProduct { handle, memo: self.content }
    }

    fn update(self, product: &mut TextProduct, surface: &mut Surface) {
        if product.memo != self.content {
            surface.set_text(product.handle, self.content.clone());
            product.memo = self.content;
            assert(surface@ =~= old(surface)@ + self.update_log(old(product), old(surface)@.len()));
        } else {
            assert(surface@ =~= old(surface)@ + self.update_log(old(product), old(surface)@.len()));
        }
    }
}

/// Text is memoized: an update with the content that the product holds makes no mutation,
/// and an update with other content makes exactly one, which rewrites the product's node.
pub proof fn lemma_memoized_update(shown: Text, text: Text, product: TextProduct, at: nat)
    requires
        shown.shown_by(&product),
    ensures
        text.content@ == shown.content@ ==> text.update_log(&product, at) == Seq::<
            MutationModel,
        >::empty(),
        text.content@ != shown.content@ ==> text.update_log(&product, at) == seq![
            MutationModel::SetText { handle: product.handle(), content: text.content@ },
        ],
{
}

} // verus!
