pub mod argparse;
pub mod util;
