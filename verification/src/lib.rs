pub mod account;
pub mod error;
pub mod pool;
pub mod ranking;
pub mod score;

pub use account::AccountId;
pub use error::Error;
pub use pool::StakedPool;
pub use score::GameScore;
