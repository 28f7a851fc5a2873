use vstd::prelude::*;

verus! {

/// The pixels of a loaded texture: an 8-bit RGB image of the `image` crate.
#[verifier::external_body]
#[derive(Debug)]
pub struct TextureImage {
    image: image::RgbImage,
}

/// The width and height a texture image was made with.
pub uninterp spec fn texture_image_dimensions(image: TextureImage) -> (u32, u32);

/// The pixels of a texture image as (red, green, blue) triples, row by row
/// from the top left corner.
pub uninterp spec fn texture_image_pixels(image: TextureImage) -> Seq<(u8, u8, u8)>;

impl TextureImage {
    /// `image::ImageBuffer::from_raw` for 8-bit RGB: an image of `width` by
    /// `height` pixels over `data`, three bytes per pixel row by row, when
    /// `data` holds enough bytes for them; `None` otherwise.
    #[verifier::external_body]
    fn from_raw(width: u32, height: u32, data: Vec<u8>) -> (image: Option<TextureImage>)
        ensures
            image is Some <==> 3 * width * height <= data@.len(),
            image matches Some(image) ==> {
                &&& texture_image_dimensions(image) == (width, height)
                &&& forall|i: int|
                    0 <= i < width * height ==> #[trigger] texture_image_pixels(image)[i] == (
                        data@[3 * i],
                        data@[3 * i + 1],
                        data@[3 * i + 2],
                    )
            },
    {
        image::RgbImage::from_raw(width, height, data).map(|image| TextureImage { image })
    }

    /// `image::ImageBuffer::width`: the width the image was made with.
    #[verifier::external_body]
    fn width(&self) -> (width: u32)
        ensures
            width == texture_image_dimensions(*self).0,
    {
        self.image.width()
    }

    /// `image::ImageBuffer::height`: the height the image was made with.
    #[verifier::external_body]
    fn height(&self) -> (height: u32)
        ensures
            height == texture_image_dimensions(*self).1,
    {
        self.image.height()
    }

    /// `image::ImageBuffer::get_pixel`: the pixel in column `x` and row `y`,
    /// which sits at position `y * width + x`; it panics outside the image,
    /// so both coordinates must lie inside.
    #[verifier::external_body]
    fn get_pixel(&self, x: u32, y: u32) -> (pixel: (u8, u8, u8))
        requires
            x < texture_image_dimensions(*self).0,
            y < texture_image_dimensions(*self).1,
        ensures
            pixel == texture_image_pixels(*self)[y * texture_image_dimensions(*self).0 + x],
    {
        let channels = self.image.get_pixel(x, y).0;
        (channels[0], channels[1], channels[2])
    }
}

/// `nalgebra::clamp` on `u32`: `min` unless `val` exceeds it, then `max`
/// unless `val` is below it, then `val`.
#[verifier::external_body]
fn clamp_u32(val: u32, min: u32, max: u32) -> (clamped: u32)
    ensures
        clamped == spec_clamp(val, min, max),
{
    nalgebra::clamp(val, min, max)
}

/// `val` clamped to the range from `min` to `max`, as `nalgebra::clamp` does it.
pub open spec fn spec_clamp(val: u32, min: u32, max: u32) -> u32 {
    if val > min {
        if val < max {
            val
        } else {
            max
        }
    } else {
        min
    }
}

/// An image texture, named by the path it is loaded from. Until its image is
/// loaded it has no pixels and reports a size of zero.
#[derive(Debug)]
pub struct Texture {
    texture_path: String,
    width: u32,
    height: u32,
    texture: Option<TextureImage>,
}

impl Texture {
    /// A loaded texture reports the size of its image.
    #[verifier::type_invariant]
    spec fn well_formed(self) -> bool {
        match self.texture {
            Some(image) => texture_image_dimensions(image) == (self.width, self.height),
            None => self.width == 0 && self.height == 0,
        }
    }

    /// The path the texture is loaded from.
    pub closed spec fn path_view(self) -> Seq<char> {
        self.texture_path@
    }

    /// The loaded image, if any.
    pub closed spec fn image_view(self) -> Option<TextureImage> {
        self.texture
    }

    /// The width in pixels; zero until loaded.
    pub closed spec fn width_view(self) -> u32 {
        self.width
    }

    /// The height in pixels; zero until loaded.
    pub closed spec fn height_view(self) -> u32 {
        self.height
    }

    /// A texture to be loaded from `texture_path`.
    pub fn new(texture_path: &str) -> (texture: Texture)
        ensures
            texture.path_view() == texture_path@,
            texture.image_view() is None,
            texture.width_view() == 0,
            texture.height_view() == 0,
    {
        Texture { texture_path: texture_path.to_string(), width: 0, height: 0, texture: None }
    }

    /// The path the texture is loaded from.
    pub fn texture_path(&self) -> (path: &str)
        ensures
            path@ == self.path_view(),
    {
        self.texture_path.as_str()
    }

    /// Whether the image has been loaded.
    pub fn is_loaded(&self) -> (loaded: bool)
        ensures
            loaded == self.image_view() is Some,
    {
        self.texture.is_some()
    }

    /// The width in pixels; zero until loaded.
    pub fn get_width(&self) -> (width: u32)
        ensures
            width == self.width_view(),
    {
        self.width
    }

    /// The height in pixels; zero until loaded.
    pub fn get_height(&self) -> (height: u32)
        ensures
            height == self.height_view(),
    {
        self.height
    }

    /// Loads an image of `width` by `height` pixels given as RGB bytes, row by
    /// row, when `data` holds enough bytes for it (then the texture takes the
    /// image's size and pixels); otherwise the texture stays unloaded. A
    /// texture is loaded once.
    pub fn set_image(&mut self, width: u32, height: u32, data: Vec<u8>) -> (loaded: bool)
        requires
            old(self).image_view() is None,
        ensures
            loaded == (3 * width * height <= data@.len()),
            final(self).path_view() == old(self).path_view(),
            !loaded ==> *final(self) == *old(self),
            loaded ==> {
                &&& final(self).image_view() is Some
                &&& final(self).width_view() == width
                &&& final(self).height_view() == height
                &&& forall|i: int|
                    0 <= i < width * height ==> #[trigger] texture_image_pixels(
                        final(self).image_view()->0,
                    )[i] == (data@[3 * i], data@[3 * i + 1], data@[3 * i + 2])
            },
    {
        match TextureImage::from_raw(width, height, data) {
            Some(image) => {
                let width = image.width();
                let height = image.height();
                let texture_path = self.texture_path.clone();
                *self = Texture { texture_path, width, height, texture: Some(image) };
                true
            },
            None => false,
        }
    }

    /// The texel nearest to column `x` and row `y`: coordinates past the last
    /// column or row are clamped to it, so every lookup lands inside the image.
    pub fn texel(&self, x: u32, y: u32) -> (rgb: (u8, u8, u8))
        requires
            self.image_view() is Some,
            self.width_view() >= 1,
            self.height_view() >= 1,
        ensures
            ({
                let column = spec_clamp(x, 0, (self.width_view() - 1) as u32);
                let row = spec_clamp(y, 0, (self.height_view() - 1) as u32);
                &&& column < self.width_view()
                &&& row < self.height_view()
                &&& rgb == texture_image_pixels(self.image_view()->0)[row * self.width_view() + column]
            }),
    {
        proof {
            use_type_invariant(self);
        }
        let (w, h) = (self.width - 1, self.height - 1);
        let column = clamp_u32(x, 0, w);
        let row = clamp_u32(y, 0, h);
        match &self.texture {
            Some(image) => image.get_pixel(column, row),
            None => (0, 0, 0),
        }
    }
}

} // verus!
