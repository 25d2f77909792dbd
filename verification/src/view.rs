//! The contract of everything that can be shown: built once, then updated in place.

use crate::surface::{all_fresh, Handle, MutationModel, Surface};
use vstd::prelude::*;

verus! {

/// What a built view owns on the surface.
pub trait Mountable: Sized {
    /// The live node that stands for this product.
    spec fn handle(&self) -> Handle;

    /// Whether the node `handle` belongs to this product: its own node, or a node of a
    /// product inside it.
    spec fn owns(&self, handle: Handle) -> bool;

    /// Whether the product is in one piece after the mutations of `log`: its nodes were all
    /// created, the products inside it are in one piece and share no node, neither with
    /// each other nor with the product itself, and they stand under its nodes as the
    /// product holds them.
    spec fn sound(&self, log: Seq<MutationModel>) -> bool;

    /// A product in one piece owns its own node, and every node that it owns was created.
    proof fn lemma_sound(&self, log: Seq<MutationModel>)
        requires
            self.sound(log),
        ensures
            self.owns(self.handle()),
            forall|handle: Handle| #[trigger] self.owns(handle) ==> handle.id < log.len(),
    ;

    /// A product in one piece stays so under mutations that leave its nodes alone.
    proof fn lemma_spared(&self, log: Seq<MutationModel>, more: Seq<MutationModel>)
        requires
            self.sound(log),
            forall|k: int, handle: Handle|
                #![trigger more[k], self.owns(handle)]
                0 <= k < more.len() && self.owns(handle) ==> more[k].spares(
                    handle,
                    handle == self.handle(),
                ),
        ensures
            self.sound(log + more),
    ;

    /// The live node that stands for this product.
    fn js(&self) -> (handle: Handle)
        ensures
            handle == self.handle(),
    ;

    /// Attaches the product as the last child of `parent`.
    fn mount(&self, parent: Handle, surface: &mut Surface)
        ensures
            final(surface)@ == old(surface)@.push(
                MutationModel::Mount { parent, child: self.handle() },
            ),
    {
        surface.mount(parent, self.js());
    }

    /// Detaches the product from its parent and releases its live node.
    fn unmount(&self, surface: &mut Surface)
        ensures
            final(surface)@ == old(surface)@.push(MutationModel::Unmount { handle: self.handle() }),
    {
        surface.unmount(self.js());
    }

    /// Puts the product at the place of the live node `previous`.
    fn mount_replace(&self, previous: Handle, surface: &mut Surface)
        ensures
            final(surface)@ == old(surface)@.push(
                MutationModel::Replace { previous, next: self.handle() },
            ),
    {
        surface.replace(previous, self.js());
    }
}

/// Whether all of `more` leave the nodes of `product` alone.
pub open spec fn all_spare<P: Mountable>(more: Seq<MutationModel>, product: &P) -> bool {
    forall|k: int, handle: Handle|
        #![trigger more[k], product.owns(handle)]
        0 <= k < more.len() && product.owns(handle) ==> more[k].spares(
            handle,
            handle == product.handle(),
        )
}

/// Mutations that are about none of the nodes of a product leave them alone.
pub proof fn lemma_unnamed_spares<P: Mountable>(more: Seq<MutationModel>, product: &P)
    requires
        forall|k: int, handle: Handle|
            0 <= k < more.len() && product.owns(handle) ==> !(#[trigger] more[k].names(handle)),
    ensures
        all_spare(more, product),
{
    assert forall|k: int, handle: Handle|
        #![trigger more[k], product.owns(handle)]
        0 <= k < more.len() && product.owns(handle) implies more[k].spares(
        handle,
        handle == product.handle(),
    ) by {
        assert(!more[k].names(handle));
    }
}

/// A value that can be shown. Building consumes it and leaves a product; updating consumes a
/// new value of the same type and changes a product of it in place.
pub trait Html: Sized {
    /// What building leaves behind.
    type Product: Mountable;

    /// Whether `product` shows this value.
    spec fn shown_by(&self, product: &Self::Product) -> bool;

    /// The mutations that building makes on a surface that has seen `at` mutations.
    spec fn build_log(&self, at: nat) -> Seq<MutationModel>;

    /// The mutations that updating `product` makes on a surface that has seen `at` mutations.
    spec fn update_log(&self, product: &Self::Product, at: nat) -> Seq<MutationModel>;

    /// Building is about the nodes that it creates, and about no others; and it attaches
    /// the product's own node nowhere, which is left to whoever builds.
    proof fn lemma_build_fresh(&self, at: nat)
        requires
            at + self.build_log(at).len() <= usize::MAX,
        ensures
            all_fresh(self.build_log(at), at),
            forall|i: int|
                0 <= i < self.build_log(at).len() ==> !(#[trigger] self.build_log(at)[i]).moves(
                    Handle::at(at),
                ),
    ;

    /// Updating a product in one piece is about the nodes that the product owns and about
    /// those that it creates, and about no others; and it moves the product's own node
    /// nowhere, which is left to whoever holds the product.
    proof fn lemma_update_local(&self, product: &Self::Product, log: Seq<MutationModel>)
        requires
            product.sound(log),
            log.len() + self.update_log(product, log.len()).len() <= usize::MAX,
        ensures
            forall|k: int, handle: Handle|
                0 <= k < self.update_log(product, log.len()).len() && (#[trigger] self.update_log(
                    product,
                    log.len(),
                )[k].names(handle)) ==> product.owns(handle) || handle.id >= log.len(),
            forall|k: int|
                0 <= k < self.update_log(product, log.len()).len() ==> !(#[trigger] self.update_log(
                    product,
                    log.len(),
                )[k]).moves(product.handle()),
    ;

    /// Creates the live nodes for this value. The product's own node is the first of them,
    /// and the product owns none that was there before.
    fn build(self, surface: &mut Surface) -> (product: Self::Product)
        ensures
            final(surface)@ == old(surface)@ + self.build_log(old(surface)@.len()),
            self.build_log(old(surface)@.len()).len() > 0,
            product.handle() == Handle::at(old(surface)@.len()),
            self.shown_by(&product),
            product.sound(final(surface)@),
            forall|handle: Handle| #[trigger]
                product.owns(handle) ==> handle.id >= old(surface)@.len(),
    ;

    /// Changes `product` so that it shows this value. Its own node stays the same, and what
    /// it owns besides the nodes that it owned before was created by this update.
    fn update(self, product: &mut Self::Product, surface: &mut Surface)
        ensures
            final(surface)@ == old(surface)@ + self.update_log(old(product), old(surface)@.len()),
            final(product).handle() == old(product).handle(),
            self.shown_by(final(product)),
            old(product).sound(old(surface)@) ==> final(product).sound(final(surface)@),
            forall|handle: Handle| #[trigger]
                final(product).owns(handle) ==> old(product).owns(handle) || handle.id >= old(
                    surface,
                )@.len(),
    ;

    /// Gives the value back as it is.
    fn into_html(self) -> (html: Self)
        ensures
            html == self,
    {
        self
    }
}

/// A value that is no view itself but can be turned into one.
pub trait IntoHtml {
    /// The view that the value becomes.
    type Html: Html;

    /// Whether `html` is the view of this value.
    spec fn becomes(&self, html: &Self::Html) -> bool;

    /// Turns the value into its view.
    fn into_html(self) -> (html: Self::Html)
        ensures
            self.becomes(&html),
    ;
}

} // verus!
