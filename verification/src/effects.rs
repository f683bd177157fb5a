//! Layer effect types and the parameters each one offers.

use vstd::prelude::*;

verus! {

/// Supported effect types.
#[derive(Clone, Copy, Debug, PartialEq, Eq, Structural)]
pub enum EffectType {
    /// Gaussian blur with configurable radius.
    GaussianBlur,
    /// Brightness and contrast adjustment.
    BrightnessContrast,
    /// HSV colour space adjustments (hue shift, saturation, value).
    AdjustHSV,
}

/// One parameter of an effect, with its UI range as written in the
/// schema (minimum, maximum, step).
#[derive(Clone, Copy, Debug)]
pub struct EffectParam {
    pub name: &'static str,
    pub min: &'static str,
    pub max: &'static str,
    pub step: &'static str,
}

/// The schema of an effect: its name and its parameters in UI order.
#[derive(Clone, Debug)]
pub struct EffectSchema {
    pub name: &'static str,
    pub params: Vec<EffectParam>,
}

/// Whether a parameter has the given name and UI range.
pub open spec fn param_is(p: EffectParam, name: Seq<char>, min: Seq<char>, max: Seq<char>, step: Seq<char>) -> bool {
    p.name@ == name && p.min@ == min && p.max@ == max && p.step@ == step
}

fn param(name: &'static str, min: &'static str, max: &'static str, step: &'static str) -> (r: EffectParam)
    ensures
        param_is(r, name@, min@, max@, step@),
{
    EffectParam { name, min, max, step }
}

impl EffectType {
    /// Human-readable name for UI display.
    pub fn display_name(&self) -> (r: &'static str)
        ensures
            r@ == match *self {
                EffectType::GaussianBlur => "Gaussian Blur"@,
                EffectType::BrightnessContrast => "Brightness/Contrast"@,
                EffectType::AdjustHSV => "Adjust HSV"@,
            },
    {
        match self {
            EffectType::GaussianBlur => "Gaussian Blur",
            EffectType::BrightnessContrast => "Brightness/Contrast",
            EffectType::AdjustHSV => "Adjust HSV",
        }
    }

    /// The schema of this effect type: blur has `radius` (0 to 100, step
    /// 0.5); brightness/contrast has `brightness` and `contrast` (-1 to 1,
    /// step 0.01); HSV has `hue_shift` (-180 to 180, step 1), `saturation`
    /// and `value` (0 to 2, step 0.01).
    pub fn schema(&self) -> (r: EffectSchema)
        ensures
            match *self {
                EffectType::GaussianBlur => r.name@ == "FX_GaussianBlur"@ && r.params@.len() == 1 && param_is(
                    r.params@[0],
                    "radius"@,
                    "0"@,
                    "100"@,
                    "0.5"@,
                ),
                EffectType::BrightnessContrast => r.name@ == "FX_BrightnessContrast"@ && r.params@.len() == 2
                    && param_is(r.params@[0], "brightness"@, "-1"@, "1"@, "0.01"@) && param_is(
                    r.params@[1],
                    "contrast"@,
                    "-1"@,
                    "1"@,
                    "0.01"@,
                ),
                EffectType::AdjustHSV => r.name@ == "FX_AdjustHSV"@ && r.params@.len() == 3 && param_is(
                    r.params@[0],
                    "hue_shift"@,
                    "-180"@,
                    "180"@,
                    "1"@,
                ) && param_is(r.params@[1], "saturation"@, "0"@, "2"@, "0.01"@) && param_is(
                    r.params@[2],
                    "value"@,
                    "0"@,
                    "2"@,
                    "0.01"@,
                ),
            },
    {
        let mut params: Vec<EffectParam> = Vec::new();
        match self {
            EffectType::GaussianBlur => {
                params.push(param("radius", "0", "100", "0.5"));
                EffectSchema { name: "FX_GaussianBlur", params }
            },
            EffectType::BrightnessContrast => {
                params.push(param("brightness", "-1", "1", "0.01"));
                params.push(param("contrast", "-1", "1", "0.01"));
                EffectSchema { name: "FX_BrightnessContrast", params }
            },
            EffectType::AdjustHSV => {
                params.push(param("hue_shift", "-180", "180", "1"));
                params.push(param("saturation", "0", "2", "0.01"));
                params.push(param("value", "0", "2", "0.01"));
                EffectSchema { name: "FX_AdjustHSV", params }
            },
        }
    }

    /// All effect types, in UI order.
    pub fn all() -> (r: Vec<EffectType>)
        ensures
            r@ == seq![EffectType::GaussianBlur, EffectType::BrightnessContrast, EffectType::AdjustHSV],
    {
        let mut v: Vec<EffectType> = Vec::new();
        v.push(EffectType::GaussianBlur);
        v.push(EffectType::BrightnessContrast);
        v.push(EffectType::AdjustHSV);
        proof {
            assert(v@ =~= seq![EffectType::GaussianBlur, EffectType::BrightnessContrast, EffectType::AdjustHSV]);
        }
        v
    }
}

} // verus!
