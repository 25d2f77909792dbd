//! The entry points: a view becomes the visible root of the surface, and is brought up to
//! date after an event.

use crate::signal::ShouldRender;
use crate::surface::{Handle, MutationModel, Surface};
use crate::view::{Html, Mountable};
use vstd::prelude::*;

verus! {

/// What `log` is once the hook for failures is on it: `log` itself where it holds the hook
/// already, else `log` with the hook at its end.
pub open spec fn hooked(log: Seq<MutationModel>) -> Seq<MutationModel> {
    if log.contains(MutationModel::Hook) {
        log
    } else {
        log.push(MutationModel::Hook)
    }
}

/// Builds `html` and installs it as the visible root. The first call on a surface installs
/// the hook for failures before anything else; later calls leave that out.
///
/// The product is handed to the caller, who keeps it for as long as the surface lives.
pub fn start<H: Html>(html: H, surface: &mut Surface) -> (product: H::Product)
    ensures
        final(surface)@ == hooked(old(surface)@) + html.build_log(hooked(old(surface)@).len())
            + seq![MutationModel::Start { root: product.handle() }],
        product.handle() == Handle::at(hooked(old(surface)@).len()),
        html.shown_by(&product),
        product.sound(final(surface)@),
{
    if !surface.is_hooked() {
        surface.hook();
    }
    let built = html.build(surface);
    let ghost made = surface@;
    surface.install(built.js());
    proof {
        let install = seq![MutationModel::Start { root: built.handle() }];
        assert(surface@ =~= made + install);
        built.lemma_spared(made, install);
    }
    built
}

/// Brings `product` up to date after an event, unless the event's handler has said that
/// nothing on screen has changed: then neither the product nor the surface is touched.
pub fn rerender<H: Html>(
    signal: ShouldRender,
    html: H,
    product: &mut H::Product,
    surface: &mut Surface,
)
    ensures
        signal == ShouldRender::No ==> *final(product) == *old(product) && final(surface)@ == old(
            surface,
        )@,
        signal == ShouldRender::Yes ==> {
            &&& final(surface)@ == old(surface)@ + html.update_log(
                old(product),
                old(surface)@.len(),
            )
            &&& final(product).handle() == old(product).handle()
            &&& html.shown_by(final(product))
            &&& old(product).sound(old(surface)@) ==> final(product).sound(final(surface)@)
        },
{
    if signal.should_render() {
        html.update(product, surface);
    }
}

} // verus!
