# satsbudget

A budget, what is left of it, and what that is worth in bitcoin.

`src/` is the library, verified with Verus:

- `rounding`: the grid of IEEE 754 binary64 magnitudes, and rounding to it.
- `double`: binary64 numbers by their bit patterns, with correctly rounded
  arithmetic.
- `naturals`, `decimal`, `reading`: numbers of any size by their decimal digits,
  writing numbers in decimal notation, and reading them.
- `currency`, `rates`: the supported currencies, and a number for some of them.
- `json`: JSON documents as plain trees, read with serde_json.
- `market`: what is asked of the price and inflation services, and what is read
  from their replies.
- `budget`: the state of the application, and when market data is asked for.
- `pie`, `report`: the slices of the chart, and the lines of text.
- `laws`: what holds of the arithmetic and of the budget as a whole.
- `proportions`, `growth`: what the pie and the growth of prices depend on, and
  how near to the exact proportions rounding stays.

`app/` is the program around it: the window, the network, and the powers and
angles that are left to the machine's floating point.
