//! Which background mask an image gets.
use vstd::prelude::*;

verus! {

/// How the background is told apart from the subject.
#[derive(Debug, Clone, Copy, PartialEq, Eq, Structural)]
pub enum BackgroundMode {
    /// The image has transparency: its alpha channel is the mask.
    Alpha,
    /// `--soft-bg`: a blurred ellipse around the centre is the mask.
    SoftBackground,
    /// No masking and no fading.
    Disabled,
}

impl BackgroundMode {
    /// The first mode that applies: alpha, then `--soft-bg`, then none.
    pub fn resolve(has_alpha: bool, soft_bg: bool) -> (mode: BackgroundMode)
        ensures
            mode == if has_alpha {
                BackgroundMode::Alpha
            } else if soft_bg {
                BackgroundMode::SoftBackground
            } else {
                BackgroundMode::Disabled
            },
    {
        if has_alpha {
            return BackgroundMode::Alpha;
        }
        if soft_bg {
            return BackgroundMode::SoftBackground;
        }
        BackgroundMode::Disabled
    }
}

} // verus!
