//! Error phrases used in `ERROR <说明>` replies.

use vstd::prelude::*;

verus! {

/// 未知命令
pub const UNKNOWN_COMMAND: &'static str = "未知命令";

/// 缺少参数
pub const MISSING_ARG: &'static str = "缺少参数";

/// 多余参数
pub const EXTRA_ARG: &'static str = "多余参数";

/// 键不存在
pub const KEY_NOT_FOUND: &'static str = "键不存在";

/// 键不合法（空键、含空格等）
pub const INVALID_KEY: &'static str = "非法键";

/// 值不合法（含换行）
pub const INVALID_VALUE: &'static str = "非法值";

/// 消息超长
pub const MSG_TOO_LONG: &'static str = "消息超长";

} // verus!
