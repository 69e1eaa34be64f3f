//! Present value of dated cash flows and bond schedules.
//!
//! The library models calendar dates as plain triples, derives signed day
//! counts through the calendar backend, builds a bond's coupon schedule, and
//! reduces every valuation to exact discount terms (amount, day count). The
//! binary64 discounting itself is the host's affair: amounts travel through
//! the library as opaque bit patterns.

pub mod amount;
pub mod date;
pub mod bond;
pub mod flows;
pub mod text;
