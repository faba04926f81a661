pub mod filter;
pub mod gradient;
pub mod header;
pub mod rescale;

pub use filter::{edge_pixels, sobel_filter, FilterError};
pub use gradient::{get_min_max, interior, sobel, sobel_x, sobel_y, MAX_ENERGY};
pub use header::{
    find_byte, get_next_noncomment_line, parse_decimal, parse_dimension, parse_pgm,
    u8_slice_to_string, HeaderError,
};
pub use rescale::scale;
